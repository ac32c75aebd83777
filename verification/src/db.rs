//! The shared key/value store.
//!
//! `State` is the store's state under the server's single mutex: the entry
//! map, the expiration index that drives the reaper, the id counter and the
//! shutdown flag. The invariant `State::wf` ties the two structures
//! together: every entry carrying an expiry owns exactly one `(when, id)`
//! row, rows point at live entries only, and the row count equals the count
//! of expiring entries. The reaper calls `purge_expired_keys`, whose
//! contract says exactly which keys survive.

use vstd::prelude::*;

verus! {

/// One slot in the store.
pub struct Entry {
    /// Disambiguates entries that share an expiration instant.
    pub id: u64,
    /// Stored data.
    pub data: Vec<u8>,
    /// Instant at which the entry expires, in milliseconds, if any.
    pub expires_at: Option<u64>,
}

/// One row of the expiration index: the entry of `key` with identifier
/// `id` expires at instant `when`.
pub struct ExpRow {
    pub when: u64,
    pub id: u64,
    pub key: Vec<u8>,
}

/// First entry stored under `k`, if any. With unique keys, the only one.
pub open spec fn list_get(s: Seq<(Vec<u8>, Entry)>, k: Seq<u8>) -> Option<Entry>
    decreases s.len(),
{
    if s.len() == 0 {
        None
    } else if s[0].0@ == k {
        Some(s[0].1)
    } else {
        list_get(s.drop_first(), k)
    }
}

/// How many entries carry an expiry.
pub open spec fn count_expiring(s: Seq<(Vec<u8>, Entry)>) -> int
    decreases s.len(),
{
    if s.len() == 0 {
        0
    } else {
        count_expiring(s.drop_first()) + (if s[0].1.expires_at is Some {
            1int
        } else {
            0int
        })
    }
}

/// The expiration index holds a `(when, id)` row.
pub open spec fn has_row(rows: Seq<ExpRow>, when: u64, id: u64) -> bool {
    exists|j: int| 0 <= j < rows.len() && (#[trigger] rows[j]).when == when && rows[j].id == id
}

/// The row names an entry that is present and expires exactly then.
pub open spec fn row_matches(entries: Seq<(Vec<u8>, Entry)>, r: ExpRow) -> bool {
    exists|i: int|
        0 <= i < entries.len() && (#[trigger] entries[i]).0@ == r.key@ && entries[i].1.id == r.id
            && entries[i].1.expires_at == Some(r.when)
}

/// Smallest `when` over the index.
pub open spec fn rows_min(rows: Seq<ExpRow>) -> Option<u64>
    decreases rows.len(),
{
    if rows.len() == 0 {
        None
    } else {
        match rows_min(rows.drop_first()) {
            None => Some(rows[0].when),
            Some(m) => Some(
                if rows[0].when <= m {
                    rows[0].when
                } else {
                    m
                },
            ),
        }
    }
}

/// The store invariant over its two structures.
pub open spec fn inv_lists(
    entries: Seq<(Vec<u8>, Entry)>,
    rows: Seq<ExpRow>,
    next_id: u64,
) -> bool {
    &&& (forall|i: int, j: int|
        0 <= i < j < entries.len() ==> (#[trigger] entries[i]).0@ != (#[trigger] entries[j]).0@)
    &&& (forall|i: int| 0 <= i < entries.len() ==> (#[trigger] entries[i]).1.id < next_id)
    &&& (forall|i: int, j: int|
        0 <= i < j < entries.len() ==> (#[trigger] entries[i]).1.id != (
        #[trigger] entries[j]).1.id)
    &&& (forall|j: int| 0 <= j < rows.len() ==> row_matches(entries, #[trigger] rows[j]))
    &&& (forall|j: int, j2: int|
        0 <= j < j2 < rows.len() ==> !((#[trigger] rows[j]).when == (#[trigger] rows[j2]).when
            && rows[j].id == rows[j2].id))
    &&& (forall|i: int|
        0 <= i < entries.len() ==> match (#[trigger] entries[i]).1.expires_at {
            Some(w) => has_row(rows, w, entries[i].1.id),
            None => true,
        })
    &&& rows.len() == count_expiring(entries)
}

/// The instant an entry written now would expire at.
pub open spec fn spec_expiry(expire: Option<u64>, now: u64) -> Option<u64> {
    match expire {
        Some(d) => Some((now + d) as u64),
        None => None,
    }
}

pub proof fn lemma_list_get_props(s: Seq<(Vec<u8>, Entry)>, k: Seq<u8>)
    ensures
        (list_get(s, k) is None) <==> (forall|i: int|
            0 <= i < s.len() ==> (#[trigger] s[i]).0@ != k),
        list_get(s, k) matches Some(e) ==> exists|i: int|
            0 <= i < s.len() && (#[trigger] s[i]).0@ == k && s[i].1 == e,
    decreases s.len(),
{
    if s.len() > 0 {
        lemma_list_get_props(s.drop_first(), k);
        if s[0].0@ != k {
            match list_get(s, k) {
                Some(e) => {
                    let i = choose|i: int|
                        0 <= i < s.drop_first().len() && (#[trigger] s.drop_first()[i]).0@ == k
                            && s.drop_first()[i].1 == e;
                    assert(s[i + 1].0@ == k && s[i + 1].1 == e);
                },
                None => {
                    assert forall|i: int| 0 <= i < s.len() implies (#[trigger] s[i]).0@ != k by {
                        if i > 0 {
                            assert(s.drop_first()[i - 1] == s[i]);
                        }
                    }
                },
            }
        }
    }
}

/// When `i` is the first index holding `k`, the lookup returns its entry.
pub proof fn lemma_list_get_first(s: Seq<(Vec<u8>, Entry)>, k: Seq<u8>, i: int)
    requires
        0 <= i < s.len(),
        s[i].0@ == k,
        forall|x: int| 0 <= x < i ==> (#[trigger] s[x]).0@ != k,
    ensures
        list_get(s, k) == Some(s[i].1),
    decreases s.len(),
{
    if i > 0 {
        assert forall|x: int| 0 <= x < i - 1 implies (#[trigger] s.drop_first()[x]).0@ != k by {
            assert(s.drop_first()[x] == s[x + 1]);
        }
        assert(s.drop_first()[i - 1] == s[i]);
        lemma_list_get_first(s.drop_first(), k, i - 1);
    }
}

pub proof fn lemma_list_get_push(s: Seq<(Vec<u8>, Entry)>, p: (Vec<u8>, Entry), k: Seq<u8>)
    ensures
        list_get(s.push(p), k) == (match list_get(s, k) {
            Some(e) => Some(e),
            None => if p.0@ == k {
                Some(p.1)
            } else {
                None
            },
        }),
    decreases s.len(),
{
    if s.len() == 0 {
        assert(s.push(p)[0] == p);
        assert(s.push(p).drop_first() =~= Seq::<(Vec<u8>, Entry)>::empty());
        assert(list_get(Seq::<(Vec<u8>, Entry)>::empty(), k) is None);
    } else {
        assert(s.push(p)[0] == s[0]);
        assert(s.push(p).drop_first() =~= s.drop_first().push(p));
        lemma_list_get_push(s.drop_first(), p, k);
    }
}

pub proof fn lemma_list_get_remove(s: Seq<(Vec<u8>, Entry)>, i: int, k: Seq<u8>)
    requires
        0 <= i < s.len(),
        k == s[i].0@ ==> forall|x: int|
            0 <= x < s.len() && x != i ==> (#[trigger] s[x]).0@ != k,
    ensures
        list_get(s.remove(i), k) == (if k == s[i].0@ {
            None
        } else {
            list_get(s, k)
        }),
    decreases s.len(),
{
    s.remove_ensures(i);
    if i == 0 {
        assert(s.remove(0) =~= s.drop_first());
        if k == s[0].0@ {
            assert forall|x: int| 0 <= x < s.drop_first().len() implies (#[trigger] s.drop_first()[x]).0@ != k by {
                assert(s.drop_first()[x] == s[x + 1]);
            }
            lemma_list_get_props(s.drop_first(), k);
        }
    } else {
        assert(s.remove(i)[0] == s[0]);
        assert(s.remove(i).drop_first() =~= s.drop_first().remove(i - 1));
        assert(s.drop_first()[i - 1] == s[i]);
        if k == s[i].0@ {
            assert forall|x: int|
                0 <= x < s.drop_first().len() && x != i - 1 implies (#[trigger] s.drop_first()[x]).0@ != k by {
                assert(s.drop_first()[x] == s[x + 1]);
            }
        }
        lemma_list_get_remove(s.drop_first(), i - 1, k);
    }
}

pub proof fn lemma_count_push(s: Seq<(Vec<u8>, Entry)>, p: (Vec<u8>, Entry))
    ensures
        count_expiring(s.push(p)) == count_expiring(s) + (if p.1.expires_at is Some {
            1int
        } else {
            0int
        }),
    decreases s.len(),
{
    if s.len() == 0 {
        assert(s.push(p)[0] == p);
        assert(s.push(p).drop_first() =~= Seq::<(Vec<u8>, Entry)>::empty());
        assert(count_expiring(Seq::<(Vec<u8>, Entry)>::empty()) == 0);
    } else {
        assert(s.push(p)[0] == s[0]);
        assert(s.push(p).drop_first() =~= s.drop_first().push(p));
        lemma_count_push(s.drop_first(), p);
    }
}

pub proof fn lemma_count_remove(s: Seq<(Vec<u8>, Entry)>, i: int)
    requires
        0 <= i < s.len(),
    ensures
        count_expiring(s.remove(i)) == count_expiring(s) - (if s[i].1.expires_at is Some {
            1int
        } else {
            0int
        }),
    decreases s.len(),
{
    s.remove_ensures(i);
    if i == 0 {
        assert(s.remove(0) =~= s.drop_first());
    } else {
        assert(s.remove(i)[0] == s[0]);
        assert(s.remove(i).drop_first() =~= s.drop_first().remove(i - 1));
        assert(s.drop_first()[i - 1] == s[i]);
        lemma_count_remove(s.drop_first(), i - 1);
    }
}

pub proof fn lemma_rows_min_props(rows: Seq<ExpRow>)
    ensures
        match rows_min(rows) {
            None => rows.len() == 0,
            Some(m) => (exists|j: int| 0 <= j < rows.len() && (#[trigger] rows[j]).when == m)
                && (forall|j: int| 0 <= j < rows.len() ==> (#[trigger] rows[j]).when >= m),
        },
    decreases rows.len(),
{
    if rows.len() > 0 {
        lemma_rows_min_props(rows.drop_first());
        match rows_min(rows.drop_first()) {
            None => {
                assert(rows.drop_first().len() == 0);
                match rows_min(rows) {
                    Some(m) => {
                        assert(rows[0].when == m);
                    },
                    None => {},
                }
            },
            Some(m2) => {
                let jw = choose|j: int|
                    0 <= j < rows.drop_first().len() && (#[trigger] rows.drop_first()[j]).when
                        == m2;
                assert(rows[jw + 1] == rows.drop_first()[jw]);
                match rows_min(rows) {
                    Some(m) => {
                        assert forall|j: int| 0 <= j < rows.len() implies (#[trigger] rows[j]).when
                            >= m by {
                            if j > 0 {
                                assert(rows.drop_first()[j - 1] == rows[j]);
                            }
                        }
                    },
                    None => {},
                }
            },
        }
    }
}

fn find_entry(entries: &Vec<(Vec<u8>, Entry)>, key: &Vec<u8>) -> (r: Option<usize>)
    ensures
        match r {
            Some(i) => i < entries@.len() && entries@[i as int].0@ == key@ && forall|x: int|
                0 <= x < i ==> (#[trigger] entries@[x]).0@ != key@,
            None => forall|x: int| 0 <= x < entries@.len() ==> (#[trigger] entries@[x]).0@ != key@,
        },
{
    let mut i: usize = 0;
    while i < entries.len()
        invariant
            i <= entries@.len(),
            forall|x: int| 0 <= x < i ==> (#[trigger] entries@[x]).0@ != key@,
        decreases entries@.len() - i,
    {
        let p = &entries[i];
        if crate::bytes_eq(&p.0, key) {
            return Some(i);
        }
        i = i + 1;
    }
    None
}

fn find_row(rows: &Vec<ExpRow>, when: u64, id: u64) -> (r: Option<usize>)
    ensures
        match r {
            Some(j) => j < rows@.len() && rows@[j as int].when == when && rows@[j as int].id == id,
            None => forall|x: int|
                0 <= x < rows@.len() ==> !((#[trigger] rows@[x]).when == when && rows@[x].id
                    == id),
        },
{
    let mut j: usize = 0;
    while j < rows.len()
        invariant
            j <= rows@.len(),
            forall|x: int|
                0 <= x < j ==> !((#[trigger] rows@[x]).when == when && rows@[x].id == id),
        decreases rows@.len() - j,
    {
        let r = &rows[j];
        if r.when == when && r.id == id {
            return Some(j);
        }
        j = j + 1;
    }
    None
}

fn min_row_when(rows: &Vec<ExpRow>) -> (r: Option<usize>)
    ensures
        match r {
            Some(j) => j < rows@.len() && forall|x: int|
                0 <= x < rows@.len() ==> rows@[j as int].when <= (#[trigger] rows@[x]).when,
            None => rows@.len() == 0,
        },
{
    if rows.len() == 0 {
        return None;
    }
    let mut best: usize = 0;
    let mut j: usize = 1;
    while j < rows.len()
        invariant
            best < j <= rows@.len(),
            forall|x: int|
                0 <= x < j ==> rows@[best as int].when <= (#[trigger] rows@[x]).when,
        decreases rows@.len() - j,
    {
        if rows[j].when < rows[best].when {
            best = j;
        }
        j = j + 1;
    }
    Some(best)
}

/// Whether writing an entry expiring at `expiry` creates a new earliest
/// deadline, so the sleeping reaper must be woken.
pub open spec fn should_notify(rows: Seq<ExpRow>, expiry: Option<u64>) -> bool {
    match expiry {
        None => false,
        Some(w) => match rows_min(rows) {
            None => true,
            Some(m) => m > w,
        },
    }
}

/// Re-establishes the store invariant across one `set`: the new row was
/// appended (when an expiry is given), the previous entry and its row were
/// removed, and the new entry was appended.
proof fn lemma_set_update(
    entries0: Seq<(Vec<u8>, Entry)>,
    rows0: Seq<ExpRow>,
    nid: u64,
    newpair: (Vec<u8>, Entry),
    newrow: ExpRow,
    prev_i: Option<int>,
    row_j: Option<int>,
    rows1: Seq<ExpRow>,
    entries1: Seq<(Vec<u8>, Entry)>,
    rows2: Seq<ExpRow>,
)
    requires
        inv_lists(entries0, rows0, nid),
        nid < u64::MAX,
        newpair.1.id == nid,
        match newpair.1.expires_at {
            Some(w) => newrow.when == w && newrow.id == nid && newrow.key@ == newpair.0@ && rows1
                == rows0.push(newrow),
            None => rows1 == rows0,
        },
        match prev_i {
            Some(i) => 0 <= i < entries0.len() && entries0[i].0@ == newpair.0@ && entries1
                == entries0.remove(i),
            None => (forall|x: int|
                0 <= x < entries0.len() ==> (#[trigger] entries0[x]).0@ != newpair.0@) && entries1
                == entries0,
        },
        match prev_i {
            Some(i) => match entries0[i].1.expires_at {
                Some(w) => row_j matches Some(j) && 0 <= row_j->Some_0 < rows1.len()
                    && rows1[row_j->Some_0].when == w && rows1[row_j->Some_0].id
                    == entries0[i].1.id && rows2 == rows1.remove(row_j->Some_0),
                None => row_j is None && rows2 == rows1,
            },
            None => row_j is None && rows2 == rows1,
        },
    ensures
        inv_lists(entries1.push(newpair), rows2, (nid + 1) as u64),
        list_get(entries1.push(newpair), newpair.0@) == Some(newpair.1),
        forall|k: Seq<u8>|
            k != newpair.0@ ==> #[trigger] list_get(entries1.push(newpair), k) == list_get(
                entries0,
                k,
            ),
{
    let key = newpair.0@;
    let e2 = entries1.push(newpair);
    let has_exp = newpair.1.expires_at is Some;

    // Index mapping for the entry removal, and uniqueness of the previous key.
    match prev_i {
        Some(i) => {
            entries0.remove_ensures(i);
            assert forall|x: int|
                0 <= x < entries0.len() && x != i implies (#[trigger] entries0[x]).0@ != key by {}
            lemma_count_remove(entries0, i);
        },
        None => {},
    }
    // entries1 holds no `key`, and its elements are elements of entries0.
    assert forall|x: int| 0 <= x < entries1.len() implies (#[trigger] entries1[x]).0@ != key by {
        match prev_i {
            Some(i) => {
                if x < i {
                    assert(entries1[x] == entries0[x]);
                } else {
                    assert(entries1[x] == entries0[x + 1]);
                }
            },
            None => {},
        }
    }
    // Row removal mapping.
    match row_j {
        Some(j) => {
            rows1.remove_ensures(j);
        },
        None => {},
    }

    // Unique keys.
    assert forall|x: int, y: int|
        0 <= x < y < e2.len() implies (#[trigger] e2[x]).0@ != (#[trigger] e2[y]).0@ by {
        if y < entries1.len() {
            match prev_i {
                Some(i) => {},
                None => {},
            }
        }
    }
    // Ids bounded and unique.
    assert forall|x: int| 0 <= x < e2.len() implies (#[trigger] e2[x]).1.id < nid + 1 by {}
    assert forall|x: int, y: int|
        0 <= x < y < e2.len() implies (#[trigger] e2[x]).1.id != (#[trigger] e2[y]).1.id by {}

    // Every row of rows2 names a live entry of e2.
    assert forall|j: int| 0 <= j < rows2.len() implies row_matches(e2, #[trigger] rows2[j]) by {
        let r = rows2[j];
        // r is either the appended row or a row of rows0.
        if has_exp && r.when == newrow.when && r.id == newrow.id && r.key@ == newrow.key@ {
            assert(e2[e2.len() - 1] == newpair);
            assert(row_matches(e2, r));
        } else {
            // Map back through the removal and the push to a rows0 index.
            let j1: int = match row_j {
                Some(jr) => if j < jr {
                    j
                } else {
                    j + 1
                },
                None => j,
            };
            assert(rows1[j1] == r);
            if j1 < rows0.len() {
                assert(rows0[j1] == r);
                assert(row_matches(entries0, r));
                let i2 = choose|i2: int|
                    0 <= i2 < entries0.len() && (#[trigger] entries0[i2]).0@ == r.key@
                        && entries0[i2].1.id == r.id && entries0[i2].1.expires_at == Some(r.when);
                match prev_i {
                    Some(i) => {
                        if i2 == i {
                            // Then r is exactly the row that was removed.
                            match entries0[i].1.expires_at {
                                Some(w) => {
                                    let jr = row_j->Some_0;
                                    if j1 < jr {
                                        assert(!(rows1[j1].when == rows1[jr].when && rows1[j1].id
                                            == rows1[jr].id));
                                    } else {
                                        assert(!(rows1[jr].when == rows1[j1].when && rows1[jr].id
                                            == rows1[j1].id));
                                    }
                                },
                                None => {},
                            }
                            assert(false);
                        } else {
                            let i3: int = if i2 < i {
                                i2
                            } else {
                                i2 - 1
                            };
                            assert(entries1[i3] == entries0[i2]);
                            assert(e2[i3] == entries0[i2]);
                            assert(row_matches(e2, r));
                        }
                    },
                    None => {
                        assert(e2[i2] == entries0[i2]);
                        assert(row_matches(e2, r));
                    },
                }
            } else {
                // j1 is the appended row's index, but r was ruled out above.
                assert(rows1[j1] == newrow);
                assert(false);
            }
        }
    }
    // Rows pairwise distinct.
    assert forall|j: int, j2: int|
        0 <= j < j2 < rows2.len() implies !((#[trigger] rows2[j]).when == (
    #[trigger] rows2[j2]).when && rows2[j].id == rows2[j2].id) by {
        let a: int = match row_j {
            Some(jr) => if j < jr {
                j
            } else {
                j + 1
            },
            None => j,
        };
        let b: int = match row_j {
            Some(jr) => if j2 < jr {
                j2
            } else {
                j2 + 1
            },
            None => j2,
        };
        assert(rows1[a] == rows2[j]);
        assert(rows1[b] == rows2[j2]);
        if a < rows0.len() && b < rows0.len() {
        } else {
            // One of them is the appended row, whose id `nid` exceeds every
            // id reachable from rows0 through the invariant.
            if a < rows0.len() {
                assert(row_matches(entries0, rows0[a]));
                let iw = choose|iw: int|
                    0 <= iw < entries0.len() && (#[trigger] entries0[iw]).0@ == rows0[a].key@
                        && entries0[iw].1.id == rows0[a].id && entries0[iw].1.expires_at == Some(
                        rows0[a].when,
                    );
                assert(rows0[a].id < nid);
            }
            if b < rows0.len() {
                assert(row_matches(entries0, rows0[b]));
                let iw = choose|iw: int|
                    0 <= iw < entries0.len() && (#[trigger] entries0[iw]).0@ == rows0[b].key@
                        && entries0[iw].1.id == rows0[b].id && entries0[iw].1.expires_at == Some(
                        rows0[b].when,
                    );
                assert(rows0[b].id < nid);
            }
        }
    }
    // Every expiring entry of e2 still owns a row.
    assert forall|x: int| 0 <= x < e2.len() implies match (#[trigger] e2[x]).1.expires_at {
        Some(w) => has_row(rows2, w, e2[x].1.id),
        None => true,
    } by {
        match e2[x].1.expires_at {
            Some(w) => {
                if x == e2.len() - 1 {
                    // The appended entry: its row is the appended row.
                    let j0 = rows1.len() - 1;
                    assert(rows1[j0] == newrow);
                    match row_j {
                        Some(jr) => {
                            // The removed row has the previous entry's id, not nid.
                            let i = prev_i->Some_0;
                            assert(rows1[jr].id == entries0[i].1.id);
                            assert(entries0[i].1.id < nid);
                            assert(jr != j0);
                            assert(rows2[j0 - 1] == rows1[j0]);
                            assert(has_row(rows2, w, nid));
                        },
                        None => {
                            assert(has_row(rows2, w, nid));
                        },
                    }
                } else {
                    // An entry of entries0 that was not removed.
                    let x0: int = match prev_i {
                        Some(i) => if x < i {
                            x
                        } else {
                            x + 1
                        },
                        None => x,
                    };
                    assert(entries0[x0] == e2[x]);
                    assert(match entries0[x0].1.expires_at {
                        Some(w0) => has_row(rows0, w0, entries0[x0].1.id),
                        None => true,
                    });
                    let j0 = choose|j0: int|
                        0 <= j0 < rows0.len() && (#[trigger] rows0[j0]).when == w && rows0[j0].id
                            == e2[x].1.id;
                    assert(rows1[j0] == rows0[j0]);
                    match row_j {
                        Some(jr) => {
                            // The removed row belongs to the removed entry, whose id differs.
                            let i = prev_i->Some_0;
                            assert(rows1[jr].id == entries0[i].1.id);
                            if x0 < i {
                                assert(entries0[x0].1.id != entries0[i].1.id);
                            } else {
                                assert(entries0[i].1.id != entries0[x0].1.id);
                            }
                            assert(jr != j0);
                            if j0 < jr {
                                assert(rows2[j0] == rows1[j0]);
                                assert(has_row(rows2, w, e2[x].1.id));
                            } else {
                                assert(rows2[j0 - 1] == rows1[j0]);
                                assert(has_row(rows2, w, e2[x].1.id));
                            }
                        },
                        None => {
                            assert(has_row(rows2, w, e2[x].1.id));
                        },
                    }
                }
            },
            None => {},
        }
    }
    // Row count equals the count of expiring entries.
    lemma_count_push(entries1, newpair);
    // The new binding and the untouched ones.
    lemma_list_get_push(entries1, newpair, key);
    lemma_list_get_props(entries1, key);
    assert forall|k: Seq<u8>|
        k != key implies #[trigger] list_get(e2, k) == list_get(entries0, k) by {
        lemma_list_get_push(entries1, newpair, k);
        match prev_i {
            Some(i) => {
                lemma_list_get_remove(entries0, i, k);
            },
            None => {},
        }
    }
}

/// Re-establishes the store invariant across one reaper step: row `j` and
/// the entry `i` bearing its key leave together.
proof fn lemma_purge_step(entries: Seq<(Vec<u8>, Entry)>, rows: Seq<ExpRow>, nid: u64, j: int, i: int)
    requires
        inv_lists(entries, rows, nid),
        0 <= j < rows.len(),
        0 <= i < entries.len(),
        entries[i].0@ == rows[j].key@,
    ensures
        inv_lists(entries.remove(i), rows.remove(j), nid),
        entries[i].1.id == rows[j].id,
        entries[i].1.expires_at == Some(rows[j].when),
        forall|k: Seq<u8>|
            #[trigger] list_get(entries.remove(i), k) == (if k == rows[j].key@ {
                None
            } else {
                list_get(entries, k)
            }),
{
    let e1 = entries.remove(i);
    let r1 = rows.remove(j);
    entries.remove_ensures(i);
    rows.remove_ensures(j);
    // The row's witness is entry `i` itself, by key uniqueness.
    assert(row_matches(entries, rows[j]));
    let iw = choose|iw: int|
        0 <= iw < entries.len() && (#[trigger] entries[iw]).0@ == rows[j].key@ && entries[iw].1.id
            == rows[j].id && entries[iw].1.expires_at == Some(rows[j].when);
    assert(iw == i);
    lemma_count_remove(entries, i);
    // Remaining rows still name live entries.
    assert forall|x: int| 0 <= x < r1.len() implies row_matches(e1, #[trigger] r1[x]) by {
        let x0: int = if x < j {
            x
        } else {
            x + 1
        };
        assert(rows[x0] == r1[x]);
        assert(row_matches(entries, rows[x0]));
        let i2 = choose|i2: int|
            0 <= i2 < entries.len() && (#[trigger] entries[i2]).0@ == rows[x0].key@
                && entries[i2].1.id == rows[x0].id && entries[i2].1.expires_at == Some(
                rows[x0].when,
            );
        if i2 == i {
            // Then rows[x0] shares `(when, id)` with rows[j]: impossible.
            if x0 < j {
                assert(!(rows[x0].when == rows[j].when && rows[x0].id == rows[j].id));
            } else {
                assert(!(rows[j].when == rows[x0].when && rows[j].id == rows[x0].id));
            }
            assert(false);
        } else {
            let i3: int = if i2 < i {
                i2
            } else {
                i2 - 1
            };
            assert(e1[i3] == entries[i2]);
            assert(row_matches(e1, r1[x]));
        }
    }
    // Surviving expiring entries keep their rows.
    assert forall|x: int| 0 <= x < e1.len() implies match (#[trigger] e1[x]).1.expires_at {
        Some(w) => has_row(r1, w, e1[x].1.id),
        None => true,
    } by {
        let x0: int = if x < i {
            x
        } else {
            x + 1
        };
        assert(entries[x0] == e1[x]);
        match e1[x].1.expires_at {
            Some(w) => {
                assert(match entries[x0].1.expires_at {
                    Some(w0) => has_row(rows, w0, entries[x0].1.id),
                    None => true,
                });
                let j0 = choose|j0: int|
                    0 <= j0 < rows.len() && (#[trigger] rows[j0]).when == w && rows[j0].id
                        == e1[x].1.id;
                if x0 < i {
                    assert(entries[x0].1.id != entries[i].1.id);
                } else {
                    assert(entries[i].1.id != entries[x0].1.id);
                }
                assert(j0 != j);
                if j0 < j {
                    assert(r1[j0] == rows[j0]);
                    assert(has_row(r1, w, e1[x].1.id));
                } else {
                    assert(r1[j0 - 1] == rows[j0]);
                    assert(has_row(r1, w, e1[x].1.id));
                }
            },
            None => {},
        }
    }
    // Lookups change only at the removed key.
    assert forall|k: Seq<u8>|
        #[trigger] list_get(e1, k) == (if k == rows[j].key@ {
            None
        } else {
            list_get(entries, k)
        }) by {
        lemma_list_get_remove(entries, i, k);
    }
}

/// The two store structures stay in step: after any sequence of writes and
/// purges the expiration index holds exactly one row per entry that carries
/// an expiry. This is part of the store invariant, which `new` establishes
/// and `set` and `purge_expired_keys` preserve.
pub proof fn lemma_expirations_match_entries(s: State)
    requires
        s.wf(),
    ensures
        s.spec_rows().len() == count_expiring(s.spec_entries()),
{
}

/// Server state shared across all connections: the key/value entries, the
/// expiration index ordered by the reaper, the id counter, and the
/// shutdown flag.
pub struct State {
    entries: Vec<(Vec<u8>, Entry)>,
    expirations: Vec<ExpRow>,
    next_id: u64,
    shutdown: bool,
}

impl State {
    pub closed spec fn spec_entries(self) -> Seq<(Vec<u8>, Entry)> {
        self.entries@
    }

    pub closed spec fn spec_rows(self) -> Seq<ExpRow> {
        self.expirations@
    }

    pub closed spec fn spec_next_id(self) -> u64 {
        self.next_id
    }

    pub closed spec fn spec_shutdown(self) -> bool {
        self.shutdown
    }

    /// The entry stored under `k`, if any.
    pub open spec fn spec_get(self, k: Seq<u8>) -> Option<Entry> {
        list_get(self.spec_entries(), k)
    }

    pub open spec fn wf(self) -> bool {
        inv_lists(self.spec_entries(), self.spec_rows(), self.spec_next_id())
    }

    pub fn new() -> (r: State)
        ensures
            r.wf(),
            r.spec_entries().len() == 0,
            r.spec_rows().len() == 0,
            r.spec_next_id() == 0,
            !r.spec_shutdown(),
            forall|k: Seq<u8>| #[trigger] r.spec_get(k) is None,
    {
        State { entries: Vec::new(), expirations: Vec::new(), next_id: 0, shutdown: false }
    }

    pub fn is_shutdown(&self) -> (r: bool)
        ensures
            r == self.spec_shutdown(),
    {
        self.shutdown
    }

    /// The identifier the next write will use.
    pub fn next_id(&self) -> (r: u64)
        ensures
            r == self.spec_next_id(),
    {
        self.next_id
    }

    /// A copy of the data stored under `key`, if any. Reads do not consult
    /// the expiry: the reaper is the sole remover.
    pub fn get(&self, key: &Vec<u8>) -> (r: Option<Vec<u8>>)
        ensures
            match self.spec_get(key@) {
                Some(e) => r matches Some(v) && v@ == e.data@,
                None => r is None,
            },
    {
        match find_entry(&self.entries, key) {
            Some(i) => {
                proof {
                    lemma_list_get_first(self.entries@, key@, i as int);
                }
                let e = &self.entries[i];
                Some(crate::clone_bytes(&e.1.data))
            },
            None => {
                proof {
                    lemma_list_get_props(self.entries@, key@);
                }
                None
            },
        }
    }

    /// Earliest instant at which some entry expires, if any.
    pub fn next_expiration(&self) -> (r: Option<u64>)
        ensures
            r == rows_min(self.spec_rows()),
    {
        proof {
            lemma_rows_min_props(self.expirations@);
        }
        match min_row_when(&self.expirations) {
            Some(j) => {
                let w = self.expirations[j].when;
                proof {
                    match rows_min(self.expirations@) {
                        Some(m) => {
                            let jm = choose|x: int|
                                0 <= x < self.expirations@.len() && (#[trigger] self.expirations@[x]).when == m;
                            assert(self.expirations@[jm].when >= w);
                        },
                        None => {},
                    }
                }
                Some(w)
            },
            None => None,
        }
    }

    /// Store `value` under `key`, replacing any previous entry and its
    /// expiration row. With `expire == Some(d)` the entry expires at
    /// `now + d`. Returns whether the reaper must be woken: true exactly
    /// when the write establishes a new earliest deadline.
    pub fn set(&mut self, key: Vec<u8>, value: Vec<u8>, expire: Option<u64>, now: u64) -> (notify:
        bool)
        requires
            old(self).wf(),
            old(self).spec_next_id() < u64::MAX,
            expire matches Some(d) ==> now + d <= u64::MAX,
        ensures
            final(self).wf(),
            final(self).spec_next_id() == old(self).spec_next_id() + 1,
            final(self).spec_shutdown() == old(self).spec_shutdown(),
            match final(self).spec_get(key@) {
                Some(e) => e.id == old(self).spec_next_id() && e.data@ == value@ && e.expires_at
                    == spec_expiry(expire, now),
                None => false,
            },
            forall|k: Seq<u8>|
                k != key@ ==> #[trigger] final(self).spec_get(k) == old(self).spec_get(k),
            notify == should_notify(old(self).spec_rows(), spec_expiry(expire, now)),
    {
        let ghost entries0 = self.entries@;
        let ghost rows0 = self.expirations@;
        let next_deadline = self.next_expiration();
        let id = self.next_id;
        self.next_id = self.next_id + 1;
        let mut notify = false;
        let mut expires_at: Option<u64> = None;
        let ghost mut newrow: ExpRow = arbitrary();
        match expire {
            Some(d) => {
                let when = now + d;
                expires_at = Some(when);
                notify = match next_deadline {
                    Some(m) => m > when,
                    None => true,
                };
                let row = ExpRow { when, id, key: crate::clone_bytes(&key) };
                proof {
                    newrow = row;
                }
                self.expirations.push(row);
            },
            None => {},
        }
        let ghost rows1 = self.expirations@;
        let ghost mut prev_i: Option<int> = None;
        let ghost mut row_j: Option<int> = None;
        match find_entry(&self.entries, &key) {
            Some(i) => {
                proof {
                    prev_i = Some(i as int);
                }
                let prev_id = self.entries[i].1.id;
                let prev_exp = self.entries[i].1.expires_at;
                self.entries.remove(i);
                match prev_exp {
                    Some(w) => {
                        match find_row(&self.expirations, w, prev_id) {
                            Some(j) => {
                                proof {
                                    row_j = Some(j as int);
                                }
                                self.expirations.remove(j);
                            },
                            None => {
                                proof {
                                    assert(has_row(rows0, w, prev_id));
                                    let j0 = choose|j0: int|
                                        0 <= j0 < rows0.len() && (#[trigger] rows0[j0]).when == w
                                            && rows0[j0].id == prev_id;
                                    assert(rows1[j0] == rows0[j0]);
                                    assert(false);
                                }
                            },
                        }
                    },
                    None => {},
                }
            },
            None => {},
        }
        let ghost entries1 = self.entries@;
        let ghost rows2 = self.expirations@;
        let entry = Entry { id, data: value, expires_at };
        self.entries.push((key, entry));
        proof {
            let newpair = (
                self.entries@[self.entries@.len() - 1].0,
                self.entries@[self.entries@.len() - 1].1,
            );
            assert(self.entries@ =~= entries1.push(newpair));
            lemma_set_update(
                entries0,
                rows0,
                id,
                newpair,
                newrow,
                prev_i,
                row_j,
                rows1,
                entries1,
                rows2,
            );
        }
        notify
    }

    /// Remove every entry whose deadline has passed, unless the store is
    /// shutting down. Afterwards exactly the unexpired entries remain.
    /// Returns the earliest future deadline, if any entry still has one.
    pub fn purge_expired_keys(&mut self, now: u64) -> (r: Option<u64>)
        requires
            old(self).wf(),
        ensures
            final(self).wf(),
            final(self).spec_shutdown() == old(self).spec_shutdown(),
            final(self).spec_next_id() == old(self).spec_next_id(),
            old(self).spec_shutdown() ==> r is None && final(self).spec_entries() == old(
                self,
            ).spec_entries() && final(self).spec_rows() == old(self).spec_rows(),
            !old(self).spec_shutdown() ==> {
                &&& (forall|k: Seq<u8>|
                    #[trigger] final(self).spec_get(k) == (match old(self).spec_get(k) {
                        Some(e) => match e.expires_at {
                            Some(w) => if w <= now {
                                None::<Entry>
                            } else {
                                Some(e)
                            },
                            None => Some(e),
                        },
                        None => None::<Entry>,
                    }))
                &&& (r matches Some(w) ==> w > now && rows_min(final(self).spec_rows()) == Some(
                    w,
                ))
                &&& (r is None ==> final(self).spec_rows().len() == 0)
            },
    {
        if self.is_shutdown() {
            return None;
        }
        loop
            invariant
                self.wf(),
                !old(self).spec_shutdown(),
                self.spec_shutdown() == old(self).spec_shutdown(),
                self.spec_next_id() == old(self).spec_next_id(),
                forall|k: Seq<u8>|
                    #[trigger] self.spec_get(k) == old(self).spec_get(k) || (self.spec_get(k)
                        is None && (match old(self).spec_get(k) {
                        Some(e) => match e.expires_at {
                            Some(w) => w <= now,
                            None => false,
                        },
                        None => false,
                    })),
            decreases self.spec_rows().len(),
        {
            proof {
                lemma_rows_min_props(self.expirations@);
            }
            let j = match min_row_when(&self.expirations) {
                None => {
                    proof {
                        assert forall|k: Seq<u8>|
                            #[trigger] self.spec_get(k) == (match old(self).spec_get(k) {
                                Some(e) => match e.expires_at {
                                    Some(w) => if w <= now {
                                        None::<Entry>
                                    } else {
                                        Some(e)
                                    },
                                    None => Some(e),
                                },
                                None => None::<Entry>,
                            }) by {
                            match old(self).spec_get(k) {
                                Some(e) => {
                                    if self.spec_get(k) == old(self).spec_get(k) {
                                        match e.expires_at {
                                            Some(w) => {
                                                if w <= now {
                                                    lemma_list_get_props(self.spec_entries(), k);
                                                    let ii = choose|ii: int|
                                                        0 <= ii < self.spec_entries().len() && (
                                                        #[trigger] self.spec_entries()[ii]).0@ == k
                                                            && self.spec_entries()[ii].1 == e;
                                                    assert(has_row(self.spec_rows(), w, e.id));
                                                }
                                            },
                                            None => {},
                                        }
                                    }
                                },
                                None => {},
                            }
                        }
                    }
                    return None;
                },
                Some(j) => j,
            };
            let when = self.expirations[j].when;
            if when > now {
                proof {
                    assert forall|k: Seq<u8>|
                        #[trigger] self.spec_get(k) == (match old(self).spec_get(k) {
                            Some(e) => match e.expires_at {
                                Some(w) => if w <= now {
                                    None::<Entry>
                                } else {
                                    Some(e)
                                },
                                None => Some(e),
                            },
                            None => None::<Entry>,
                        }) by {
                        match old(self).spec_get(k) {
                            Some(e) => {
                                if self.spec_get(k) == old(self).spec_get(k) {
                                    match e.expires_at {
                                        Some(w) => {
                                            if w <= now {
                                                lemma_list_get_props(self.spec_entries(), k);
                                                let ii = choose|ii: int|
                                                    0 <= ii < self.spec_entries().len() && (
                                                    #[trigger] self.spec_entries()[ii]).0@ == k
                                                        && self.spec_entries()[ii].1 == e;
                                                assert(has_row(self.spec_rows(), w, e.id));
                                                let jw = choose|jw: int|
                                                    0 <= jw < self.spec_rows().len() && (
                                                    #[trigger] self.spec_rows()[jw]).when == w
                                                        && self.spec_rows()[jw].id == e.id;
                                                assert(self.spec_rows()[jw].when >= when);
                                            }
                                        },
                                        None => {},
                                    }
                                }
                            },
                            None => {},
                        }
                    }
                    match rows_min(self.expirations@) {
                        Some(m) => {
                            let jm = choose|x: int|
                                0 <= x < self.expirations@.len() && (#[trigger] self.expirations@[
                                x]).when == m;
                            assert(self.expirations@[jm].when >= when);
                        },
                        None => {},
                    }
                }
                return Some(when);
            }
            let key = crate::clone_bytes(&self.expirations[j].key);
            let i = match find_entry(&self.entries, &key) {
                Some(i) => i,
                None => {
                    proof {
                        assert(row_matches(self.entries@, self.expirations@[j as int]));
                        let iw = choose|iw: int|
                            0 <= iw < self.entries@.len() && (#[trigger] self.entries@[iw]).0@
                                == self.expirations@[j as int].key@ && self.entries@[iw].1.id
                                == self.expirations@[j as int].id && self.entries@[iw].1.expires_at
                                == Some(self.expirations@[j as int].when);
                        assert(false);
                    }
                    return None;
                },
            };
            let ghost entries_b = self.entries@;
            let ghost rows_b = self.expirations@;
            let ghost self_b = *self;
            proof {
                lemma_list_get_first(entries_b, key@, i as int);
                lemma_purge_step(entries_b, rows_b, self.next_id, j as int, i as int);
            }
            self.entries.remove(i);
            self.expirations.remove(j);
            proof {
                assert forall|k: Seq<u8>|
                    #[trigger] self.spec_get(k) == old(self).spec_get(k) || (self.spec_get(k)
                        is None && (match old(self).spec_get(k) {
                        Some(e) => match e.expires_at {
                            Some(w) => w <= now,
                            None => false,
                        },
                        None => false,
                    })) by {
                    if k == key@ {
                        // The removed entry carried deadline `when <= now`,
                        // and by the loop invariant it is still the entry the
                        // caller handed in.
                        assert(self_b.spec_get(k) == Some(entries_b[i as int].1));
                        assert(self_b.spec_get(k) == old(self).spec_get(k) || self_b.spec_get(k)
                            is None);
                    } else {
                        assert(self_b.spec_get(k) == old(self).spec_get(k) || (self_b.spec_get(k)
                            is None && (match old(self).spec_get(k) {
                            Some(e) => match e.expires_at {
                                Some(w) => w <= now,
                                None => false,
                            },
                            None => false,
                        })));
                    }
                }
            }
        }
    }

    /// Mark the store as shutting down; the reaper exits on its next wake.
    pub fn set_shutdown(&mut self)
        ensures
            final(self).spec_shutdown(),
            final(self).spec_entries() == old(self).spec_entries(),
            final(self).spec_rows() == old(self).spec_rows(),
            final(self).spec_next_id() == old(self).spec_next_id(),
    {
        self.shutdown = true;
    }
}

} // verus!
