//! The backend-free core of the durable account store: the schema-version
//! gate and the reassembly of stored rows into a snapshot.

use vstd::prelude::*;

verus! {

/// The schema version a freshly written store carries.
pub const ACCOUNTS_SCHEMA_VERSION: u32 = 1;

/// Why the store could not be read: it was written at a schema version this
/// build does not know how to read.
#[derive(Debug, PartialEq, Eq)]
pub enum StoreError {
    SchemaVersion { stored: u32, current: u32 },
}

/// One stored account: id, login handle, grants by name, superuser bit.
#[derive(Debug, PartialEq, Eq)]
pub struct StoredAccount {
    pub id: u64,
    pub handle: String,
    pub caps: Vec<String>,
    pub is_su: bool,
}

/// The whole persisted account set plus the next id to mint.
#[derive(Debug, PartialEq, Eq)]
pub struct AccountsSnapshot {
    pub records: Vec<StoredAccount>,
    pub next_id: u64,
}

impl AccountsSnapshot {
    /// The snapshot of a fresh store: no records, ids start at 1.
    pub fn empty() -> (r: Self)
        ensures
            r.records@.len() == 0,
            r.next_id == 1,
    {
        AccountsSnapshot { records: Vec::new(), next_id: 1 }
    }
}

/// Refuse a store written at a schema version this build cannot read; a
/// missing marker (a fresh store) reads as current.
pub fn check_schema_version(stored: Option<u32>) -> (r: Result<(), StoreError>)
    ensures
        match stored {
            None => r is Ok,
            Some(v) => if v == ACCOUNTS_SCHEMA_VERSION {
                r is Ok
            } else {
                r == Err::<(), StoreError>(
                    StoreError::SchemaVersion { stored: v, current: ACCOUNTS_SCHEMA_VERSION },
                )
            },
        },
{
    let stored = match stored {
        Some(v) => v,
        None => ACCOUNTS_SCHEMA_VERSION,
    };
    if stored != ACCOUNTS_SCHEMA_VERSION {
        return Err(StoreError::SchemaVersion { stored, current: ACCOUNTS_SCHEMA_VERSION });
    }
    Ok(())
}

/// The row id `i` read as an account id (two's-complement reinterpretation).
pub open spec fn row_id(i: i64) -> u64 {
    if i >= 0 {
        i as u64
    } else {
        (i + 18446744073709551616) as u64
    }
}

fn to_id(i: i64) -> (r: u64)
    ensures
        r == row_id(i),
{
    if i >= 0 {
        i as u64
    } else {
        ((i - i64::MIN) as u64) + 9223372036854775808u64
    }
}

/// The caps, in row order, that the cap rows attach to the first account whose
/// row id is `id`.
pub open spec fn caps_for(rows: Seq<(i64, Seq<char>)>, id: u64) -> Seq<Seq<char>> {
    rows.filter(|r: (i64, Seq<char>)| row_id(r.0) == id).map_values(|r: (i64, Seq<char>)| r.1)
}

/// One past the highest id, or 1 when there is none.
pub open spec fn id_floor(ids: Seq<u64>) -> int
    decreases ids.len(),
{
    if ids.len() == 0 {
        1
    } else {
        let rest = id_floor(ids.drop_last());
        if ids.last() + 1 > rest {
            ids.last() + 1
        } else {
            rest
        }
    }
}

/// The next id to mint: the persisted marker (1 when missing), raised to the
/// id floor when the marker would reissue a live id.
pub open spec fn next_id_after(ids: Seq<u64>, marker: Option<u64>) -> int {
    let m: int = match marker {
        Some(m) => m as int,
        None => 1,
    };
    if m > id_floor(ids) {
        m
    } else {
        id_floor(ids)
    }
}

proof fn lemma_floor_bounds(ids: Seq<u64>)
    ensures
        forall|i: int| 0 <= i < ids.len() ==> ids[i] < id_floor(ids),
        id_floor(ids) >= 1,
        id_floor(ids) <= u64::MAX + 1,
    decreases ids.len(),
{
    if ids.len() > 0 {
        lemma_floor_bounds(ids.drop_last());
        assert forall|i: int| 0 <= i < ids.len() implies ids[i] < id_floor(ids) by {
            if i < ids.len() - 1 {
                assert(ids[i] == ids.drop_last()[i]);
            }
        }
    }
}

fn caps_of(cap_rows: &Vec<(i64, String)>, id: u64) -> (r: Vec<String>)
    ensures
        r@.map_values(|c: String| c@) == caps_for(
            cap_rows@.map_values(|c: (i64, String)| (c.0, c.1@)),
            id,
        ),
{
    let ghost rows = cap_rows@.map_values(|c: (i64, String)| (c.0, c.1@));
    let ghost f = |r: (i64, Seq<char>)| row_id(r.0) == id;
    let ghost g = |r: (i64, Seq<char>)| r.1;
    let mut out: Vec<String> = Vec::new();
    let mut c: usize = 0;
    while c < cap_rows.len()
        invariant
            c <= cap_rows@.len(),
            rows == cap_rows@.map_values(|c: (i64, String)| (c.0, c.1@)),
            f == (|r: (i64, Seq<char>)| row_id(r.0) == id),
            g == (|r: (i64, Seq<char>)| r.1),
            out@.map_values(|c: String| c@) == rows.take(c as int).filter(f).map_values(g),
        decreases cap_rows.len() - c,
    {
        let ghost prev = out@.map_values(|c: String| c@);
        proof {
            assert(rows.take(c + 1) =~= rows.take(c as int).push(rows[c as int]));
            rows.take(c as int).lemma_filter_push(rows[c as int], f);
        }
        assert(rows[c as int] == (cap_rows@[c as int].0, cap_rows@[c as int].1@));
        if to_id(cap_rows[c].0) == id {
            out.push(cap_rows[c].1.clone());
            assert(out@.map_values(|c: String| c@) =~= prev.push(cap_rows@[c as int].1@));
            assert(rows.take(c as int).filter(f).push(rows[c as int]).map_values(g) =~= rows.take(
                c as int,
            ).filter(f).map_values(g).push(rows[c as int].1));
        }
        c = c + 1;
    }
    assert(rows.take(cap_rows@.len() as int) =~= rows);
    out
}

/// Reassemble the rows a backend read into a snapshot. Each cap row attaches
/// to the first record with its account id (later records with a repeated id
/// get none, rows for no record are dropped), and `next_id` never falls to or
/// below a live id.
pub fn assemble_accounts(
    account_rows: Vec<(i64, String, bool)>,
    cap_rows: Vec<(i64, String)>,
    marker: Option<u64>,
) -> (r: AccountsSnapshot)
    requires
        forall|i: int|
            0 <= i < account_rows@.len() ==> row_id(#[trigger] account_rows@[i].0) < u64::MAX,
    ensures
        r.records@.len() == account_rows@.len(),
        forall|i: int|
            0 <= i < account_rows@.len() ==> {
                let rec = #[trigger] r.records@[i];
                &&& rec.id == row_id(account_rows@[i].0)
                &&& rec.handle@ == account_rows@[i].1@
                &&& rec.is_su == account_rows@[i].2
                &&& rec.caps@.map_values(|c: String| c@) == if exists|j: int|
                    0 <= j < i && row_id(account_rows@[j].0) == rec.id {
                    Seq::<Seq<char>>::empty()
                } else {
                    caps_for(cap_rows@.map_values(|c: (i64, String)| (c.0, c.1@)), rec.id)
                }
            },
        r.next_id == next_id_after(
            account_rows@.map_values(|a: (i64, String, bool)| row_id(a.0)),
            marker,
        ),
        forall|i: int| 0 <= i < r.records@.len() ==> (#[trigger] r.records@[i]).id < r.next_id,
{
    let ghost ids = account_rows@.map_values(|a: (i64, String, bool)| row_id(a.0));
    let ghost rows = cap_rows@.map_values(|c: (i64, String)| (c.0, c.1@));
    let mut records: Vec<StoredAccount> = Vec::new();
    let mut floor: u64 = 1;
    let mut i: usize = 0;
    while i < account_rows.len()
        invariant
            i <= account_rows@.len(),
            records@.len() == i,
            ids == account_rows@.map_values(|a: (i64, String, bool)| row_id(a.0)),
            rows == cap_rows@.map_values(|c: (i64, String)| (c.0, c.1@)),
            forall|k: int| 0 <= k < account_rows@.len() ==> row_id(#[trigger] account_rows@[k].0) < u64::MAX,
            floor == id_floor(ids.take(i as int)),
            forall|k: int|
                0 <= k < i ==> {
                    let rec = #[trigger] records@[k];
                    &&& rec.id == row_id(account_rows@[k].0)
                    &&& rec.handle@ == account_rows@[k].1@
                    &&& rec.is_su == account_rows@[k].2
                    &&& rec.caps@.map_values(|c: String| c@) == if exists|j: int|
                        0 <= j < k && row_id(account_rows@[j].0) == rec.id {
                        Seq::<Seq<char>>::empty()
                    } else {
                        caps_for(rows, rec.id)
                    }
                },
        decreases account_rows.len() - i,
    {
        let id = to_id(account_rows[i].0);
        let mut seen = false;
        let mut j: usize = 0;
        while j < i
            invariant
                j <= i < account_rows@.len(),
                records@.len() == i,
                id == row_id(account_rows@[i as int].0),
                forall|k: int| 0 <= k < i ==> (#[trigger] records@[k]).id == row_id(account_rows@[k].0),
                seen == exists|m: int| 0 <= m < j && row_id(account_rows@[m].0) == id,
            decreases i - j,
        {
            if records[j].id == id {
                seen = true;
            }
            j = j + 1;
        }
        let caps = if seen {
            Vec::new()
        } else {
            caps_of(&cap_rows, id)
        };
        assert(caps@.map_values(|c: String| c@) =~= if seen {
            Seq::<Seq<char>>::empty()
        } else {
            caps_for(rows, id)
        });
        records.push(
            StoredAccount { id, handle: account_rows[i].1.clone(), caps, is_su: account_rows[i].2 },
        );
        proof {
            assert(ids.take(i + 1).drop_last() =~= ids.take(i as int));
            assert(ids.take(i + 1).last() == id);
        }
        if id + 1 > floor {
            floor = id + 1;
        }
        i = i + 1;
    }
    assert(ids.take(account_rows@.len() as int) =~= ids);
    let m: u64 = match marker {
        Some(m) => m,
        None => 1,
    };
    let next_id = if m > floor { m } else { floor };
    proof {
        lemma_floor_bounds(ids);
        assert forall|k: int| 0 <= k < records@.len() implies (#[trigger] records@[k]).id < next_id by {
            assert(ids[k] == row_id(account_rows@[k].0));
        }
    }
    AccountsSnapshot { records, next_id }
}

} // verus!
