//! Device discovery: merging the directory listings of the scan roots into
//! one flat name→path mapping and picking the default device.
//!
//! The caller enumerates the scan roots in their fixed order (backlight
//! class first, then LED class, each in native listing order) and hands the
//! entries over as one sequence; the library owns the merge rules: a later
//! entry silently overwrites an earlier one of the same name, the default
//! device is the first entry encountered, and an empty scan is a fatal
//! configuration error.

use vstd::prelude::*;
use vstd::set::axiom_set_insert_len;

use crate::errors::ConfigError;

verus! {

/// One discovered device: its name and the absolute path of its directory.
#[derive(Debug)]
pub struct DeviceEntry {
    /// The device name, the file name of its directory.
    pub name: String,
    /// The absolute path of the device directory.
    pub path: String,
}

/// The name→path mapping a scan sequence denotes: entries inserted in scan
/// order, a later entry overwriting an earlier one of the same name.
pub open spec fn scan_map(s: Seq<DeviceEntry>) -> Map<Seq<char>, Seq<char>>
    decreases s.len(),
{
    if s.len() == 0 {
        Map::empty()
    } else {
        scan_map(s.drop_last()).insert(s.last().name@, s.last().path@)
    }
}

/// No two entries of the sequence share a name.
pub open spec fn distinct_names(s: Seq<DeviceEntry>) -> bool {
    forall |i: int, j: int| 0 <= i < j < s.len() ==> s[i].name@ != s[j].name@
}

/// The device names a scan sequence yields, each once, in order of first
/// occurrence.
pub open spec fn first_names(s: Seq<DeviceEntry>) -> Seq<Seq<char>>
    decreases s.len(),
{
    if s.len() == 0 {
        Seq::empty()
    } else {
        let t = first_names(s.drop_last());
        if t.contains(s.last().name@) {
            t
        } else {
            t.push(s.last().name@)
        }
    }
}

/// A name is a key of the scan mapping exactly when some entry carries it.
proof fn lemma_scan_map_dom(s: Seq<DeviceEntry>)
    ensures
        scan_map(s).dom().finite(),
        forall |k: Seq<char>| #[trigger] scan_map(s).dom().contains(k)
            <==> exists |i: int| 0 <= i < s.len() && s[i].name@ == k,
    decreases s.len(),
{
    if s.len() == 0 {
    } else {
        lemma_scan_map_dom(s.drop_last());
        assert forall |k: Seq<char>| #[trigger] scan_map(s).dom().contains(k)
            implies exists |i: int| 0 <= i < s.len() && s[i].name@ == k by {
            if k == s.last().name@ {
                assert(s[s.len() - 1].name@ == k);
            } else {
                let i = choose |i: int| 0 <= i < s.drop_last().len()
                    && s.drop_last()[i].name@ == k;
                assert(s[i].name@ == k);
            }
        }
        assert forall |k: Seq<char>| (exists |i: int| 0 <= i < s.len() && s[i].name@ == k)
            implies #[trigger] scan_map(s).dom().contains(k) by {
            let i = choose |i: int| 0 <= i < s.len() && s[i].name@ == k;
            if i < s.len() - 1 {
                assert(s.drop_last()[i].name@ == k);
            }
        }
    }
}

/// With pairwise distinct names, the mapping keeps one key per entry.
pub proof fn lemma_scan_map_distinct_len(s: Seq<DeviceEntry>)
    requires
        distinct_names(s),
    ensures
        scan_map(s).dom().len() == s.len(),
    decreases s.len(),
{
    if s.len() == 0 {
        assert(scan_map(s).dom() =~= Set::<Seq<char>>::empty());
    } else {
        let t = s.drop_last();
        assert(distinct_names(t)) by {
            assert forall |i: int, j: int| 0 <= i < j < t.len()
                implies t[i].name@ != t[j].name@ by {
                assert(s[i].name@ != s[j].name@);
            }
        }
        lemma_scan_map_distinct_len(t);
        lemma_scan_map_dom(t);
        assert(!scan_map(t).dom().contains(s.last().name@)) by {
            if exists |i: int| 0 <= i < t.len() && t[i].name@ == s.last().name@ {
                let i = choose |i: int| 0 <= i < t.len() && t[i].name@ == s.last().name@;
                assert(s[i].name@ == s[s.len() - 1].name@);
            }
        }
        axiom_set_insert_len(scan_map(t).dom(), s.last().name@);
        assert(scan_map(s).dom() =~= scan_map(t).dom().insert(s.last().name@));
    }
}

/// Under distinct names, each entry's name maps to that entry's path.
pub proof fn lemma_scan_map_value(s: Seq<DeviceEntry>, i: int)
    requires
        distinct_names(s),
        0 <= i < s.len(),
    ensures
        scan_map(s).dom().contains(s[i].name@),
        scan_map(s)[s[i].name@] == s[i].path@,
    decreases s.len(),
{
    if i == s.len() - 1 {
    } else {
        let t = s.drop_last();
        assert(distinct_names(t)) by {
            assert forall |x: int, j: int| 0 <= x < j < t.len()
                implies t[x].name@ != t[j].name@ by {
                assert(s[x].name@ != s[j].name@);
            }
        }
        assert(t[i] == s[i]);
        lemma_scan_map_value(t, i);
        assert(s[i].name@ != s.last().name@) by {
            assert(s[i].name@ != s[s.len() - 1].name@);
        }
    }
}

/// Replacing the entry that holds a name re-points that name alone.
proof fn lemma_scan_map_update(s: Seq<DeviceEntry>, j: int, e: DeviceEntry)
    requires
        distinct_names(s),
        0 <= j < s.len(),
        s[j].name@ == e.name@,
    ensures
        scan_map(s.update(j, e)) =~= scan_map(s).insert(e.name@, e.path@),
    decreases s.len(),
{
    let t = s.drop_last();
    if j == s.len() - 1 {
        assert(s.update(j, e).drop_last() =~= t);
        assert(s.update(j, e).last() == e);
    } else {
        assert(distinct_names(t)) by {
            assert forall |x: int, y: int| 0 <= x < y < t.len()
                implies t[x].name@ != t[y].name@ by {
                assert(s[x].name@ != s[y].name@);
            }
        }
        assert(t[j] == s[j]);
        lemma_scan_map_update(t, j, e);
        assert(s.update(j, e).drop_last() =~= t.update(j, e));
        assert(s.update(j, e).last() == s.last());
        assert(e.name@ != s.last().name@) by {
            assert(s[j].name@ != s[s.len() - 1].name@);
        }
    }
}

/// The names of a mapping's entries, in the mapping's own order.
pub open spec fn entry_names(s: Seq<DeviceEntry>) -> Seq<Seq<char>> {
    s.map_values(|e: DeviceEntry| e.name@)
}

/// Finds the position that holds `name`, if any.
fn find_name(entries: &Vec<DeviceEntry>, name: &String) -> (r: Option<usize>)
    ensures
        r is Some ==> r->0 < entries@.len() && entries@[r->0 as int].name@ == name@,
        r is None ==> forall |k: int| 0 <= k < entries@.len()
            ==> entries@[k].name@ != name@,
{
    let mut j: usize = 0;
    while j < entries.len()
        invariant
            j <= entries@.len(),
            forall |k: int| 0 <= k < j ==> entries@[k].name@ != name@,
        decreases entries@.len() - j,
    {
        if entries[j].name == *name {
            return Some(j);
        }
        j = j + 1;
    }
    None
}

/// Merges the scan entries into the flat name→path mapping and picks the
/// default device.
///
/// The entries must be handed over in scan order: first scan root fully
/// enumerated before the second, each in its native listing order.  The
/// default device is the name of the first entry encountered; a later entry
/// overwrites an earlier one of the same name.  An empty scan means there
/// is no device to control: a fatal configuration error.
pub fn get_controllers(found: Vec<DeviceEntry>) -> (r: Result<(String, Vec<DeviceEntry>), ConfigError>)
    ensures
        r is Ok <==> found@.len() > 0,
        r is Err ==> r->Err_0 == ConfigError::NoDevices,
        r is Ok ==> r->Ok_0.0@ == found@[0].name@,
        r is Ok ==> distinct_names(r->Ok_0.1@),
        r is Ok ==> scan_map(r->Ok_0.1@) == scan_map(found@),
        r is Ok ==> entry_names(r->Ok_0.1@) == first_names(found@),
{
    if found.len() == 0 {
        return Err(ConfigError::NoDevices);
    }
    let default = found[0].name.clone();
    let mut out: Vec<DeviceEntry> = Vec::new();
    let mut i: usize = 0;
    proof {
        assert(found@.take(0) =~= Seq::<DeviceEntry>::empty());
        assert(entry_names(out@) =~= first_names(found@.take(0)));
    }
    while i < found.len()
        invariant
            i <= found@.len(),
            distinct_names(out@),
            scan_map(out@) =~= scan_map(found@.take(i as int)),
            entry_names(out@) =~= first_names(found@.take(i as int)),
        decreases found@.len() - i,
    {
        let entry = DeviceEntry {
            name: found[i].name.clone(),
            path: found[i].path.clone(),
        };
        let ghost ename = entry.name@;
        proof {
            assert(found@.take(i + 1).drop_last() =~= found@.take(i as int));
            assert(found@.take(i + 1).last() == found@[i as int]);
            assert(found@[i as int].name@ == ename);
        }
        match find_name(&out, &entry.name) {
            Some(j) => {
                let ghost old_out = out@;
                proof {
                    lemma_scan_map_update(old_out, j as int, entry);
                    assert(entry_names(old_out)[j as int] == ename);
                    assert(entry_names(old_out).contains(ename));
                    assert(first_names(found@.take(i + 1)) == first_names(found@.take(i as int)));
                }
                out.set(j, entry);
                proof {
                    assert forall |x: int, y: int| 0 <= x < y < out@.len()
                        implies out@[x].name@ != out@[y].name@ by {
                        assert(old_out[x].name@ != old_out[y].name@);
                        assert(out@[x].name@ == old_out[x].name@ || x == j);
                        assert(out@[y].name@ == old_out[y].name@ || y == j);
                    }
                    assert forall |k: int| 0 <= k < out@.len()
                        implies entry_names(out@)[k] == entry_names(old_out)[k] by {
                        assert(out@[k].name@ == old_out[k].name@ || k == j);
                    }
                    assert(entry_names(out@) =~= entry_names(old_out));
                }
            },
            None => {
                let ghost old_out = out@;
                proof {
                    assert(!entry_names(old_out).contains(ename)) by {
                        if entry_names(old_out).contains(ename) {
                            let j = choose |j: int| 0 <= j < entry_names(old_out).len()
                                && entry_names(old_out)[j] == ename;
                            assert(old_out[j].name@ == ename);
                        }
                    }
                    assert(first_names(found@.take(i + 1))
                        == first_names(found@.take(i as int)).push(ename));
                }
                out.push(entry);
                proof {
                    assert(out@.drop_last() =~= old_out);
                    assert forall |k: int| 0 <= k < out@.len()
                        implies entry_names(out@)[k] == entry_names(old_out).push(ename)[k] by {
                        assert(out@[k] == if k < old_out.len() { old_out[k] } else { out@.last() });
                    }
                    assert(entry_names(out@) =~= entry_names(old_out).push(ename));
                }
            },
        }
        i = i + 1;
    }
    proof {
        assert(found@.take(found@.len() as int) =~= found@);
    }
    Ok((default, out))
}

/// The discovery count law: a scan of two roots with pairwise distinct
/// names yields exactly one mapping entry per directory found, and the
/// default device is the first entry of the first root whenever that root
/// is non-empty.
pub proof fn lemma_discovery_counts(a: Seq<DeviceEntry>, b: Seq<DeviceEntry>)
    requires
        distinct_names(a + b),
    ensures
        scan_map(a + b).dom().len() == a.len() + b.len(),
        a.len() > 0 ==> (a + b)[0] == a[0],
{
    lemma_scan_map_distinct_len(a + b);
}

/// Looks the path of `name` up in a discovered mapping.
pub fn get_path(entries: &Vec<DeviceEntry>, name: &String) -> (r: Option<String>)
    requires
        distinct_names(entries@),
    ensures
        r is Some <==> scan_map(entries@).dom().contains(name@),
        r is Some ==> r->0@ == scan_map(entries@)[name@],
{
    proof {
        lemma_scan_map_dom(entries@);
    }
    match find_name(entries, name) {
        Some(j) => {
            proof {
                lemma_scan_map_value(entries@, j as int);
            }
            Some(entries[j].path.clone())
        },
        None => None,
    }
}

} // verus!
