//! The calendar account's data model, and the selection of which
//! connected calendars to fetch busy times for. The HTTP calls themselves
//! live outside the library; this module holds the data and the logic.

use vstd::prelude::*;

verus! {

/// A calendar-service client: just the bearer token the requests carry.
pub struct CalDotCom {
    token: String,
}

impl CalDotCom {
    /// The token's content.
    pub closed spec fn token_view(&self) -> Seq<char> {
        self.token@
    }

    /// A client holding `token`.
    pub fn new(token: String) -> (r: Self)
        ensures
            r.token_view() == token@,
    {
        Self { token }
    }

    /// The bearer token for a request.
    pub fn token(&self) -> (r: &String)
        ensures
            r@ == self.token_view(),
    {
        &self.token
    }
}

/// A service response envelope.
#[derive(Debug)]
pub struct Response<T> {
    pub data: T,
}

/// The calendars of an account, grouped by connection.
#[derive(Debug)]
pub struct Calendars {
    pub connected_calendars: Vec<CalendarConnection>,
}

/// One connected account and its calendars.
#[derive(Debug)]
pub struct CalendarConnection {
    pub credential_id: usize,
    pub calendars: Vec<ConnectedCalendar>,
}

/// One calendar of a connection.
#[derive(Debug)]
pub struct ConnectedCalendar {
    pub external_id: String,
    pub is_selected: bool,
}

/// A busy interval reported by the calendar service, in seconds since the
/// epoch.
#[derive(Debug, Clone, Copy, PartialEq, Eq, Structural)]
pub struct BlockedTime {
    pub start: i64,
    pub end: i64,
}

/// The selected calendars of one connection, as (credential id, external
/// id) pairs, in order.
pub open spec fn selected_in(cred: usize, cals: Seq<ConnectedCalendar>) -> Seq<(usize, Seq<char>)>
    decreases cals.len(),
{
    if cals.len() == 0 {
        Seq::empty()
    } else {
        (if cals[0].is_selected {
            seq![(cred, cals[0].external_id@)]
        } else {
            Seq::empty()
        }) + selected_in(cred, cals.skip(1))
    }
}

/// The selected calendars of all connections, in order.
pub open spec fn selected_refs_spec(conns: Seq<CalendarConnection>) -> Seq<(usize, Seq<char>)>
    decreases conns.len(),
{
    if conns.len() == 0 {
        Seq::empty()
    } else {
        selected_in(conns[0].credential_id, conns[0].calendars@) + selected_refs_spec(
            conns.skip(1),
        )
    }
}

impl Calendars {
    /// The calendars to fetch busy times for: every selected calendar,
    /// paired with its connection's credential id, in order.
    pub fn selected_calendars(&self) -> (r: Vec<(usize, String)>)
        ensures
            r@.map_values(|p: (usize, String)| (p.0, p.1@)) == selected_refs_spec(
                self.connected_calendars@,
            ),
    {
        let mut r: Vec<(usize, String)> = Vec::new();
        let ghost total = selected_refs_spec(self.connected_calendars@);
        let ghost viewed = |p: (usize, String)| (p.0, p.1@);
        let n = self.connected_calendars.len();
        let mut i: usize = 0;
        proof {
            assert(r@.map_values(viewed) =~= Seq::<(usize, Seq<char>)>::empty());
            assert(self.connected_calendars@.skip(0) =~= self.connected_calendars@);
        }
        while i < n
            invariant
                i <= n,
                n == self.connected_calendars@.len(),
                r@.map_values(viewed) + selected_refs_spec(self.connected_calendars@.skip(i as int))
                    == total,
                viewed == (|p: (usize, String)| (p.0, p.1@)),
            decreases n - i,
        {
            let conn = &self.connected_calendars[i];
            let cred = conn.credential_id;
            let m = conn.calendars.len();
            let mut j: usize = 0;
            proof {
                assert(self.connected_calendars@.skip(i as int)[0] == self.connected_calendars@[i as int]);
                assert(self.connected_calendars@.skip(i as int).skip(1) =~= self.connected_calendars@.skip(
                    i + 1,
                ));
                assert(conn.calendars@.skip(0) =~= conn.calendars@);
            }
            while j < m
                invariant
                    j <= m,
                    m == conn.calendars@.len(),
                    conn == &self.connected_calendars@[i as int],
                    cred == conn.credential_id,
                    i < n == self.connected_calendars@.len(),
                    r@.map_values(viewed) + selected_in(cred, conn.calendars@.skip(j as int))
                        + selected_refs_spec(self.connected_calendars@.skip(i + 1)) == total,
                    viewed == (|p: (usize, String)| (p.0, p.1@)),
                decreases m - j,
            {
                let ghost r_pre = r@;
                let ghost cals_j = conn.calendars@.skip(j as int);
                if conn.calendars[j].is_selected {
                    let ext = conn.calendars[j].external_id.clone();
                    r.push((cred, ext));
                }
                proof {
                    assert(cals_j[0] == conn.calendars@[j as int]);
                    assert(cals_j.skip(1) =~= conn.calendars@.skip(j + 1));
                    if conn.calendars@[j as int].is_selected {
                        assert(r@.map_values(viewed) =~= r_pre.map_values(viewed).push(
                            (cred, conn.calendars@[j as int].external_id@),
                        ));
                        assert(r_pre.map_values(viewed) + selected_in(
                            cred,
                            cals_j,
                        ) =~= r@.map_values(viewed) + selected_in(cred, conn.calendars@.skip(j + 1)));
                    } else {
                        assert(selected_in(cred, cals_j) == selected_in(
                            cred,
                            conn.calendars@.skip(j + 1),
                        ));
                    }
                }
                j = j + 1;
            }
            i = i + 1;
            proof {
                assert(selected_in(cred, conn.calendars@.skip(m as int)) =~= Seq::<(
                    usize,
                    Seq<char>,
                )>::empty());
            }
        }
        proof {
            assert(selected_refs_spec(self.connected_calendars@.skip(n as int)) =~= Seq::<(
                usize,
                Seq<char>,
            )>::empty());
            assert(r@.map_values(viewed) =~= total);
        }
        r
    }
}

} // verus!
