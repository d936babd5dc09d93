//! Save backups: the record kept with each backup, its identifier, and the
//! order in which backups are listed.

use vstd::prelude::*;
use crate::steam::{branch_name, Branch};
use vstd::string::StringExecFns;

verus! {

/// A point in time: whole seconds since the Unix epoch and the nanoseconds
/// after them (a `chrono::DateTime<Utc>` as plain values).
#[derive(Debug, Clone, Copy, PartialEq, Eq)]
pub struct Timestamp {
    pub secs: i64,
    pub nanos: u32,
}

/// The record written with a backup.
#[derive(Debug, Clone)]
pub struct BackupManifest {
    pub id: String,
    pub label: Option<String>,
    pub branch: String,
    pub timestamp: Timestamp,
    pub save_count: usize,
    pub blueprint_count: usize,
}

/// The text `chrono` gives for the UTC time `secs`/`nanos` in the format
/// `%Y%m%d_%H%M%S`, or `None` where `chrono` has no such time.
pub uninterp spec fn backup_id_text(secs: i64, nanos: u32) -> Option<Seq<char>>;

/// The times from 1970-01-01 00:00:00 to 9999-12-31 23:59:59 UTC, whose
/// years have four digits.
pub open spec fn four_digit_year_time(secs: i64, nanos: u32) -> bool {
    0 <= secs <= 253402300799 && nanos < 1000000000
}

/// The shape of a backup identifier: `YYYYMMDD_HHMMSS`, fifteen characters,
/// an underscore at index 8 and ASCII digits elsewhere.
pub open spec fn is_id_shape(s: Seq<char>) -> bool {
    s.len() == 15 && s[8] == '_' && forall|i: int|
        0 <= i < 15 && i != 8 ==> '0' <= #[trigger] s[i] && s[i] <= '9'
}

/// `chrono::DateTime::<Utc>::from_timestamp(secs, nanos)` and, when that
/// gives a time, `DateTime::format("%Y%m%d_%H%M%S")` of it. The result is
/// named `backup_id_text(secs, nanos)`. `from_timestamp` documents a time for
/// every in-range second count and nanosecond part below one second, and the
/// format documents `%Y` as the year zero-padded to four digits and `%m`,
/// `%d`, `%H`, `%M`, `%S` as two zero-padded digits; so for a time whose year
/// has four digits the text has the shape `YYYYMMDD_HHMMSS`. Which digits
/// (the calendar computation) is not stated.
#[verifier::external_body]
fn format_backup_id(secs: i64, nanos: u32) -> (r: Option<String>)
    ensures
        match r {
            Some(s) => backup_id_text(secs, nanos) == Some(s@) && (four_digit_year_time(secs, nanos)
                ==> is_id_shape(s@)),
            None => backup_id_text(secs, nanos) is None && !four_digit_year_time(secs, nanos),
        },
{
    match chrono::DateTime::from_timestamp(secs, nanos) {
        Some(dt) => Some(dt.format("%Y%m%d_%H%M%S").to_string()),
        None => None,
    }
}

/// The record of a backup taken at `timestamp` on `branch`, holding
/// `save_count` saves and `blueprint_count` blueprint files. Its identifier is
/// the timestamp as `YYYYMMDD_HHMMSS`; `None` where the timestamp is not one
/// `chrono` can represent.
pub fn new_backup_manifest(
    timestamp: Timestamp,
    branch: &Branch,
    label: Option<&str>,
    save_count: usize,
    blueprint_count: usize,
) -> (r: Option<BackupManifest>)
    ensures
        match r {
            Some(m) => backup_id_text(timestamp.secs, timestamp.nanos) == Some(m.id@)
                && m.branch@ == branch_name(*branch) && m.timestamp == timestamp
                && m.save_count == save_count && m.blueprint_count == blueprint_count
                && match label {
                Some(l) => m.label matches Some(ml) && ml@ == l@,
                None => m.label is None,
            },
            None => backup_id_text(timestamp.secs, timestamp.nanos) is None,
        },
        four_digit_year_time(timestamp.secs, timestamp.nanos) ==> (r matches Some(m) && is_id_shape(
            m.id@,
        )),
{
    let id = match format_backup_id(timestamp.secs, timestamp.nanos) {
        Some(id) => id,
        None => return None,
    };
    let label = match label {
        Some(l) => Some(String::from_str(l)),
        None => None,
    };
    Some(
        BackupManifest {
            id,
            label,
            branch: branch.to_string(),
            timestamp,
            save_count,
            blueprint_count,
        },
    )
}

/// `a` is no later than `b`.
pub open spec fn ts_le(a: Timestamp, b: Timestamp) -> bool {
    a.secs < b.secs || (a.secs == b.secs && a.nanos <= b.nanos)
}

/// Backups are ordered by the moment they were taken: for timestamps whose
/// nanosecond part is below one second, one comes no later than another
/// exactly when its count of nanoseconds since the epoch is no larger.
pub proof fn law_ts_le(a: Timestamp, b: Timestamp)
    requires
        a.nanos < 1000000000,
        b.nanos < 1000000000,
    ensures
        ts_le(a, b) <==> a.secs * 1000000000 + a.nanos <= b.secs * 1000000000 + b.nanos,
{
    if a.secs < b.secs {
        assert(a.secs * 1000000000 + a.nanos < b.secs * 1000000000 + b.nanos) by (nonlinear_arith)
            requires
                a.secs < b.secs,
                a.nanos < 1000000000,
                b.nanos >= 0,
        ;
    } else if a.secs > b.secs {
        assert(a.secs * 1000000000 + a.nanos > b.secs * 1000000000 + b.nanos) by (nonlinear_arith)
            requires
                a.secs > b.secs,
                b.nanos < 1000000000,
                a.nanos >= 0,
        ;
    }
}

/// Where a backup taken at `t` goes in a newest-first list: before the
/// first backup that is older than it.
pub open spec fn newest_first_pos(s: Seq<BackupManifest>, t: Timestamp) -> int
    decreases s.len(),
{
    if s.len() == 0 {
        0
    } else if !ts_le(t, s[0].timestamp) {
        0
    } else {
        1 + newest_first_pos(s.drop_first(), t)
    }
}

/// `s` ordered newest first; backups taken at the same time keep their order.
pub open spec fn newest_first(s: Seq<BackupManifest>) -> Seq<BackupManifest>
    decreases s.len(),
{
    if s.len() == 0 {
        seq![]
    } else {
        let t = newest_first(s.drop_last());
        t.insert(newest_first_pos(t, s.last().timestamp), s.last())
    }
}

/// The position is within the list, after every backup no older than the new
/// one and before every older one, for a list in newest-first order.
pub proof fn lemma_newest_first_pos(s: Seq<BackupManifest>, t: Timestamp)
    ensures
        0 <= newest_first_pos(s, t) <= s.len(),
        forall|i: int| 0 <= i < newest_first_pos(s, t) ==> ts_le(t, #[trigger] s[i].timestamp),
        newest_first_pos(s, t) < s.len() ==> !ts_le(t, s[newest_first_pos(s, t)].timestamp),
    decreases s.len(),
{
    if s.len() > 0 && ts_le(t, s[0].timestamp) {
        lemma_newest_first_pos(s.drop_first(), t);
        assert forall|i: int| 0 <= i < newest_first_pos(s, t) implies ts_le(
            t,
            #[trigger] s[i].timestamp,
        ) by {
            if i > 0 {
                assert(s[i] == s.drop_first()[i - 1]);
            }
        }
    }
}

/// Every backup in `s` is no older than the ones after it.
pub open spec fn is_newest_first(s: Seq<BackupManifest>) -> bool {
    forall|i: int, j: int|
        0 <= i < j < s.len() ==> ts_le(#[trigger] s[j].timestamp, #[trigger] s[i].timestamp)
}

/// Listing backups newest first gives a list in that order, holding the same backups.
pub proof fn law_newest_first_sorted(s: Seq<BackupManifest>)
    ensures
        is_newest_first(newest_first(s)),
        newest_first(s).to_multiset() == s.to_multiset(),
    decreases s.len(),
{
    broadcast use vstd::seq_lib::group_to_multiset_ensures;

    if s.len() > 0 {
        let t = newest_first(s.drop_last());
        let x = s.last();
        let p = newest_first_pos(t, x.timestamp);
        law_newest_first_sorted(s.drop_last());
        lemma_newest_first_pos(t, x.timestamp);
        let u = t.insert(p, x);
        assert forall|i: int, j: int| 0 <= i < j < u.len() implies ts_le(
            #[trigger] u[j].timestamp,
            #[trigger] u[i].timestamp,
        ) by {
            if j < p {
                assert(u[i] == t[i] && u[j] == t[j]);
            } else if j == p {
                assert(u[i] == t[i]);
            } else if i == p {
                assert(u[j] == t[j - 1]);
                assert(ts_le(t[j - 1].timestamp, t[p].timestamp) || j - 1 == p);
            } else if i < p {
                assert(u[i] == t[i] && u[j] == t[j - 1]);
                assert(ts_le(t[j - 1].timestamp, t[i].timestamp));
            } else {
                assert(u[i] == t[i - 1] && u[j] == t[j - 1]);
            }
        }
        assert(s =~= s.drop_last().push(x));
    }
}

/// The backups newest first; backups taken at the same time keep their order.
pub fn order_backups(v: Vec<BackupManifest>) -> (r: Vec<BackupManifest>)
    ensures
        r@ == newest_first(v@),
{
    let ghost orig = v@;
    let mut rest = v;
    let mut r: Vec<BackupManifest> = Vec::new();
    let mut k: usize = 0;
    let n = rest.len();
    while rest.len() > 0
        invariant
            n == orig.len(),
            k <= n,
            rest@ == orig.skip(k as int),
            r@ == newest_first(orig.take(k as int)),
        decreases rest@.len(),
    {
        let x = rest.remove(0);
        assert(orig.take(k + 1).drop_last() =~= orig.take(k as int));
        assert(orig.take(k + 1).last() == x);
        assert(rest@ =~= orig.skip(k + 1));
        let ghost t = r@;
        let mut p: usize = 0;
        assert(t.skip(0) =~= t);
        while p < r.len() && (x.timestamp.secs < r[p].timestamp.secs || (x.timestamp.secs
            == r[p].timestamp.secs && x.timestamp.nanos <= r[p].timestamp.nanos))
            invariant
                r@ == t,
                p <= t.len(),
                newest_first_pos(t, x.timestamp) == p + newest_first_pos(
                    t.skip(p as int),
                    x.timestamp,
                ),
            decreases t.len() - p,
        {
            assert(t.skip(p as int).drop_first() =~= t.skip(p + 1));
            p += 1;
        }
        assert(p < t.len() ==> t.skip(p as int)[0] == t[p as int]);
        assert(newest_first_pos(t, x.timestamp) == p);
        r.insert(p, x);
        k += 1;
    }
    assert(orig.take(k as int) =~= orig);
    r
}


/// The position of the first backup whose identifier is `id`.
pub fn find_backup(backups: &Vec<BackupManifest>, id: &str) -> (r: Option<usize>)
    ensures
        match r {
            Some(i) => i < backups@.len() && backups@[i as int].id@ == id@ && forall|j: int|
                0 <= j < i ==> #[trigger] backups@[j].id@ != id@,
            None => forall|j: int| 0 <= j < backups@.len() ==> #[trigger] backups@[j].id@ != id@,
        },
{
    let key = String::from_str(id);
    let mut i: usize = 0;
    while i < backups.len()
        invariant
            i <= backups@.len(),
            key@ == id@,
            forall|j: int| 0 <= j < i ==> #[trigger] backups@[j].id@ != id@,
        decreases backups@.len() - i,
    {
        if backups[i].id == key {
            return Some(i);
        }
        i += 1;
    }
    None
}

} // verus!
