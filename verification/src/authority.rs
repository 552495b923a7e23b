//! The account authority: the caps registry that interns a game's capability
//! names (with whether each drops under quell), and the live account set that
//! resolves a connection's account to an authorization verdict.

use vstd::prelude::*;
use crate::caps::{CapId, CapSet, Verdict};
use crate::registry::find_string;

verus! {

/// The version stamped on a freshly written account record.
pub const RECORD_VERSION: u32 = 2;

/// Stable account identity: persisted, the store's primary key.
#[derive(Clone, Copy, Debug, PartialEq, Eq, Structural, Hash, PartialOrd, Ord)]
pub struct AccountId(pub u64);

/// The caps registry: interns capability names to stable ids, remembering for
/// each whether it drops under quell.
pub struct CapRegistry {
    names: Vec<String>,
    quellable: Vec<bool>,
}

impl CapRegistry {
    #[verifier::type_invariant]
    spec fn inv(self) -> bool {
        &&& self.names@.len() == self.quellable@.len()
        &&& self.names_view().no_duplicates()
        &&& self.names@.len() <= u32::MAX
    }

    /// The registered names in registration order; an id is a position.
    pub closed spec fn names_view(&self) -> Seq<Seq<char>> {
        self.names@.map_values(|s: String| s@)
    }

    /// Whether each registered cap (by position) drops under quell.
    pub closed spec fn quellable_view(&self) -> Seq<bool> {
        self.quellable@
    }

    /// Whether `cap` drops under quell; an unknown id reads as quellable.
    pub open spec fn quellable_spec(&self, cap: CapId) -> bool {
        if cap.0 < self.quellable_view().len() {
            self.quellable_view()[cap.0 as int]
        } else {
            true
        }
    }

    /// The id `name` resolves to, if registered.
    pub open spec fn resolves(&self, name: Seq<char>, cap: CapId) -> bool {
        cap.0 < self.names_view().len() && self.names_view()[cap.0 as int] == name
    }

    /// An empty registry.
    pub fn new() -> (r: Self)
        ensures
            r.names_view().len() == 0,
            r.quellable_view().len() == 0,
            r.names_view().no_duplicates(),
            r.names_view().len() == r.quellable_view().len(),
    {
        let r = CapRegistry { names: Vec::new(), quellable: Vec::new() };
        assert(r.names_view() =~= Seq::<Seq<char>>::empty());
        r
    }

    /// Intern a quellable capability name (the default), returning its id.
    pub fn register_cap(&mut self, name: &str) -> (r: CapId)
        requires
            old(self).names_view().len() < u32::MAX,
        ensures
            old(self).names_view().contains(name@) ==> final(self).names_view() == old(
                self,
            ).names_view() && final(self).quellable_view() == old(self).quellable_view(),
            !old(self).names_view().contains(name@) ==> final(self).names_view() == old(
                self,
            ).names_view().push(name@) && final(self).quellable_view() == old(
                self,
            ).quellable_view().push(true) && r.0 == old(self).names_view().len(),
            final(self).resolves(name@, r),
            final(self).names_view().no_duplicates(),
            old(self).names_view().no_duplicates(),
            old(self).names_view().len() == old(self).quellable_view().len(),
            final(self).names_view().len() == final(self).quellable_view().len(),
            forall|j: int| 0 <= j < final(self).names_view().len() && final(self).names_view()[j] == name@ ==> j == r.0,
    {
        self.intern(name, true)
    }

    /// Intern a baseline (non-quellable) capability: one that survives quell.
    pub fn register_baseline_cap(&mut self, name: &str) -> (r: CapId)
        requires
            old(self).names_view().len() < u32::MAX,
        ensures
            old(self).names_view().contains(name@) ==> final(self).names_view() == old(
                self,
            ).names_view() && final(self).quellable_view() == old(self).quellable_view(),
            !old(self).names_view().contains(name@) ==> final(self).names_view() == old(
                self,
            ).names_view().push(name@) && final(self).quellable_view() == old(
                self,
            ).quellable_view().push(false) && r.0 == old(self).names_view().len(),
            final(self).resolves(name@, r),
            final(self).names_view().no_duplicates(),
            old(self).names_view().no_duplicates(),
            old(self).names_view().len() == old(self).quellable_view().len(),
            final(self).names_view().len() == final(self).quellable_view().len(),
            forall|j: int| 0 <= j < final(self).names_view().len() && final(self).names_view()[j] == name@ ==> j == r.0,
    {
        self.intern(name, false)
    }

    /// Intern `name` with the given quell behavior; on a re-register the first
    /// registration's behavior stands.
    fn intern(&mut self, name: &str, quellable: bool) -> (r: CapId)
        requires
            old(self).names_view().len() < u32::MAX,
        ensures
            old(self).names_view().contains(name@) ==> final(self).names_view() == old(
                self,
            ).names_view() && final(self).quellable_view() == old(self).quellable_view(),
            !old(self).names_view().contains(name@) ==> final(self).names_view() == old(
                self,
            ).names_view().push(name@) && final(self).quellable_view() == old(
                self,
            ).quellable_view().push(quellable) && r.0 == old(self).names_view().len(),
            final(self).resolves(name@, r),
            final(self).names_view().no_duplicates(),
            old(self).names_view().no_duplicates(),
            old(self).names_view().len() == old(self).quellable_view().len(),
            final(self).names_view().len() == final(self).quellable_view().len(),
            forall|j: int| 0 <= j < final(self).names_view().len() && final(self).names_view()[j] == name@ ==> j == r.0,
    {
        proof {
            use_type_invariant(&*self);
        }
        match find_string(&self.names, name) {
            Some(i) => {
                assert(self.names_view()[i as int] == name@);
                CapId(i as u32)
            },
            None => {
                proof {
                    if old(self).names_view().contains(name@) {
                        let k = choose|k: int|
                            0 <= k < old(self).names_view().len() && old(self).names_view()[k]
                                == name@;
                        assert(self.names@[k]@ == name@);
                    }
                }
                let id = CapId(self.names.len() as u32);
                let ghost orig = self.names_view();
                let mut fresh = CapRegistry { names: Vec::new(), quellable: Vec::new() };
                std::mem::swap(&mut fresh, self);
                let CapRegistry { names: mut names, quellable: mut flags } = fresh;
                names.push(name.to_owned());
                flags.push(quellable);
                proof {
                    let nv = names@.map_values(|s: String| s@);
                    assert(nv =~= orig.push(name@));
                    assert(nv.no_duplicates()) by {
                        assert forall|a: int, b: int|
                            0 <= a < nv.len() && 0 <= b < nv.len() && a != b implies nv[a]
                            != nv[b] by {
                            if a == orig.len() {
                                assert(orig[b] != name@);
                            } else if b == orig.len() {
                                assert(orig[a] != name@);
                            }
                        }
                    }
                }
                *self = CapRegistry { names, quellable: flags };
                id
            },
        }
    }

    /// Resolve a name registered earlier, or `None` if it was never registered.
    pub fn resolve(&self, name: &str) -> (r: Option<CapId>)
        ensures
            r is Some <==> self.names_view().contains(name@),
            r matches Some(id) ==> self.resolves(name@, id),
            r matches Some(id) ==> forall|j: int| 0 <= j < self.names_view().len() && self.names_view()[j] == name@ ==> j == id.0,
            self.names_view().no_duplicates(),
            self.names_view().len() == self.quellable_view().len(),
    {
        proof {
            use_type_invariant(self);
        }
        match find_string(&self.names, name) {
            Some(i) => {
                proof {
                    use_type_invariant(self);
                }
                assert(self.names_view()[i as int] == name@);
                Some(CapId(i as u32))
            },
            None => {
                proof {
                    if self.names_view().contains(name@) {
                        let k = choose|k: int|
                            0 <= k < self.names_view().len() && self.names_view()[k] == name@;
                        assert(self.names@[k]@ == name@);
                    }
                }
                None
            },
        }
    }

    /// Whether `cap` drops under quell. An unknown id reads as quellable.
    pub fn is_quellable(&self, cap: CapId) -> (r: bool)
        ensures
            r == self.quellable_spec(cap),
            self.names_view().len() == self.quellable_view().len(),
    {
        proof {
            use_type_invariant(self);
        }
        if (cap.0 as usize) < self.quellable.len() {
            self.quellable[cap.0 as usize]
        } else {
            true
        }
    }
}

/// Registration is idempotent and distinct names get distinct ids.
pub proof fn lemma_resolution_is_injective(reg: &CapRegistry, x: Seq<char>, y: Seq<char>, a: CapId, b: CapId)
    requires
        reg.names_view().no_duplicates(),
        reg.resolves(x, a),
        reg.resolves(y, b),
    ensures
        (x == y) <==> (a == b),
{
}

/// Model of an account record.
pub struct AccountRecordV {
    pub id: u64,
    pub handle: Seq<char>,
    pub caps: Seq<Seq<char>>,
    pub is_su: bool,
    pub version: u32,
}

/// The persisted form of an account: identity, login handle, grants by name,
/// the superuser bit, and a self-describing version.
#[derive(Debug)]
pub struct AccountRecord {
    pub id: AccountId,
    pub handle: String,
    pub caps: Vec<String>,
    pub is_su: bool,
    pub version: u32,
}

/// Model of a list of strings.
pub open spec fn strings_view(v: Seq<String>) -> Seq<Seq<char>> {
    v.map_values(|s: String| s@)
}

impl View for AccountRecord {
    type V = AccountRecordV;

    open spec fn view(&self) -> AccountRecordV {
        AccountRecordV {
            id: self.id.0,
            handle: self.handle@,
            caps: strings_view(self.caps@),
            is_su: self.is_su,
            version: self.version,
        }
    }
}

fn copy_strings(v: &Vec<String>) -> (r: Vec<String>)
    ensures
        strings_view(r@) == strings_view(v@),
{
    let mut out: Vec<String> = Vec::new();
    let mut i: usize = 0;
    while i < v.len()
        invariant
            i <= v@.len(),
            strings_view(out@) == strings_view(v@).take(i as int),
        decreases v.len() - i,
    {
        let ghost prev = strings_view(out@);
        out.push(v[i].clone());
        assert(strings_view(out@) =~= prev.push(v@[i as int]@));
        assert(strings_view(v@).take(i + 1) =~= strings_view(v@).take(i as int).push(v@[i as int]@));
        i = i + 1;
    }
    assert(strings_view(v@).take(v@.len() as int) =~= strings_view(v@));
    out
}

impl Clone for AccountRecord {
    fn clone(&self) -> (r: Self)
        ensures
            r@ == self@,
    {
        AccountRecord {
            id: self.id,
            handle: self.handle.clone(),
            caps: copy_strings(&self.caps),
            is_su: self.is_su,
            version: self.version,
        }
    }
}

/// Model of a list of records.
pub open spec fn records_view(v: Seq<AccountRecord>) -> Seq<AccountRecordV> {
    v.map_values(|r: AccountRecord| r@)
}

/// Every record leaves room for a successor id.
pub open spec fn ids_below_max(v: Seq<AccountRecordV>) -> bool {
    forall|i: int| 0 <= i < v.len() ==> #[trigger] v[i].id < u64::MAX
}

/// What booting from the records `recs` gives: the first unknown grant is
/// refused; no records bootstrap one superuser operator; records with no
/// superuser are refused; otherwise the loaded accounts, with the next id past
/// the highest.
pub open spec fn booted(recs: Seq<AccountRecordV>, registry: &CapRegistry, r: Result<Accounts, AuthError>) -> bool {
    match first_unknown(recs, 0, registry.names_view()) {
        Some((id, name)) => r matches Err(AuthError::UnknownGrant { account, name: n }) && account.0 == id && n@ == name,
        None => if recs.len() == 0 {
            r matches Ok(a) && a.map_view() == Map::<u64, AccountV>::empty().insert(1, fresh_account("operator"@, true))
                && a.next_id_view() == 2
        } else if forall|k: u64| #[trigger]
            loaded(recs, recs.len() as int, registry).dom().contains(k) ==> !loaded(recs, recs.len() as int, registry)[k].is_su {
            r matches Err(AuthError::NoSuperuser)
        } else {
            r matches Ok(a) && a.map_view() == loaded(recs, recs.len() as int, registry) && a.next_id_view() == max_id(
                recs,
                recs.len() as int,
            ) + 1
        },
    }
}

/// The durable backing for accounts: load every record at boot, save the full
/// set. A store hands back records whose ids leave room for a successor.
pub trait AccountStore {
    /// Every persisted record.
    fn load(&self) -> (r: Vec<AccountRecord>)
        ensures
            ids_below_max(records_view(r@)),
    ;

    /// Replace the persisted set with `records`.
    fn save(&mut self, records: &[AccountRecord])
        requires
            ids_below_max(records_view(records@)),
    ;
}

/// The in-memory account backend, seedable with records.
pub struct MemoryAccountStore {
    records: Vec<AccountRecord>,
}

impl MemoryAccountStore {
    #[verifier::type_invariant]
    spec fn inv(self) -> bool {
        ids_below_max(records_view(self.records@))
    }

    pub closed spec fn records_spec(&self) -> Seq<AccountRecordV> {
        records_view(self.records@)
    }

    /// An empty store: first boot bootstraps its operator.
    pub fn new() -> (r: Self)
        ensures
            r.records_spec().len() == 0,
    {
        let r = MemoryAccountStore { records: Vec::new() };
        assert(records_view(r.records@) =~= Seq::<AccountRecordV>::empty());
        r
    }

    /// A store holding `records`.
    pub fn with_records(records: Vec<AccountRecord>) -> (r: Self)
        requires
            ids_below_max(records_view(records@)),
        ensures
            r.records_spec() == records_view(records@),
    {
        MemoryAccountStore { records }
    }
}

fn copy_records(v: &[AccountRecord]) -> (r: Vec<AccountRecord>)
    ensures
        records_view(r@) == records_view(v@),
{
    let mut out: Vec<AccountRecord> = Vec::new();
    let mut i: usize = 0;
    while i < v.len()
        invariant
            i <= v@.len(),
            records_view(out@) == records_view(v@).take(i as int),
        decreases v.len() - i,
    {
        let ghost prev = records_view(out@);
        out.push(v[i].clone());
        assert(records_view(out@) =~= prev.push(v@[i as int]@));
        assert(records_view(v@).take(i + 1) =~= records_view(v@).take(i as int).push(v@[i as int]@));
        i = i + 1;
    }
    assert(records_view(v@).take(v@.len() as int) =~= records_view(v@));
    out
}

impl AccountStore for MemoryAccountStore {
    fn load(&self) -> (r: Vec<AccountRecord>)
        ensures
            records_view(r@) == self.records_spec(),
    {
        proof {
            use_type_invariant(self);
        }
        copy_records(self.records.as_slice())
    }

    fn save(&mut self, records: &[AccountRecord])
        ensures
            final(self).records_spec() == records_view(records@),
    {
        self.records = copy_records(records);
    }
}

/// Why the account authority refused to boot.
#[derive(Debug, PartialEq, Eq)]
pub enum AuthError {
    /// A record grants a capability name the registry never registered.
    UnknownGrant { account: AccountId, name: String },
    /// The store holds accounts but none is a superuser.
    NoSuperuser,
}

/// Why a runtime account mutation failed.
#[derive(Debug, PartialEq, Eq)]
pub enum AccountError {
    /// The target account id does not exist.
    NoSuchAccount(AccountId),
    /// The capability name is not in the registry.
    UnknownCap(String),
}

/// The first grant name from position `k` on that the registry does not know.
pub open spec fn unknown_from(names: Seq<Seq<char>>, k: nat, reg: Seq<Seq<char>>) -> Option<Seq<char>>
    decreases names.len() - k,
{
    if k >= names.len() {
        None
    } else if !reg.contains(names[k as int]) {
        Some(names[k as int])
    } else {
        unknown_from(names, k + 1, reg)
    }
}

/// The first record from position `k` on granting an unknown name, with that
/// name.
pub open spec fn first_unknown(recs: Seq<AccountRecordV>, k: nat, reg: Seq<Seq<char>>) -> Option<(u64, Seq<char>)>
    decreases recs.len() - k,
{
    if k >= recs.len() {
        None
    } else {
        match unknown_from(recs[k as int].caps, 0, reg) {
            Some(n) => Some((recs[k as int].id, n)),
            None => first_unknown(recs, k + 1, reg),
        }
    }
}

/// The ids the grant names resolve to.
pub open spec fn grant_ids(names: Seq<Seq<char>>, reg: &CapRegistry) -> Set<CapId> {
    Set::new(|c: CapId| exists|j: int| 0 <= j < names.len() && #[trigger] reg.resolves(names[j], c))
}

/// The granted ids that survive quell.
pub open spec fn baseline_ids(names: Seq<Seq<char>>, reg: &CapRegistry) -> Set<CapId> {
    Set::new(|c: CapId| grant_ids(names, reg).contains(c) && !reg.quellable_spec(c))
}

/// Model of a live account.
pub struct AccountV {
    pub caps: Set<CapId>,
    pub baseline: Set<CapId>,
    pub grants: Seq<Seq<char>>,
    pub handle: Seq<char>,
    pub is_su: bool,
}

/// The live account a record loads as.
pub open spec fn account_of(rec: AccountRecordV, reg: &CapRegistry) -> AccountV {
    AccountV {
        caps: grant_ids(rec.caps, reg),
        baseline: baseline_ids(rec.caps, reg),
        grants: rec.caps,
        handle: rec.handle,
        is_su: rec.is_su,
    }
}

/// The accounts the first `n` records load as; a later record with the same
/// id replaces an earlier one.
pub open spec fn loaded(recs: Seq<AccountRecordV>, n: int, reg: &CapRegistry) -> Map<u64, AccountV>
    decreases n,
{
    if n <= 0 {
        Map::empty()
    } else {
        loaded(recs, n - 1, reg).insert(recs[n - 1].id, account_of(recs[n - 1], reg))
    }
}

/// The largest id among the first `n` records, or zero.
pub open spec fn max_id(recs: Seq<AccountRecordV>, n: int) -> u64
    decreases n,
{
    if n <= 0 {
        0
    } else if recs[n - 1].id > max_id(recs, n - 1) {
        recs[n - 1].id
    } else {
        max_id(recs, n - 1)
    }
}

/// A fresh account with a login handle, no grants, and su as given.
pub open spec fn fresh_account(handle: Seq<char>, is_su: bool) -> AccountV {
    AccountV {
        caps: Set::empty(),
        baseline: Set::empty(),
        grants: Seq::empty(),
        handle,
        is_su,
    }
}

/// The accounts of an id-ordered entry list, by id.
pub open spec fn entries_map(es: Seq<(u64, AccountV)>) -> Map<u64, AccountV> {
    Map::new(
        |k: u64| exists|i: int| 0 <= i < es.len() && #[trigger] es[i].0 == k,
        |k: u64| es[choose|i: int| 0 <= i < es.len() && #[trigger] es[i].0 == k].1,
    )
}

/// Entry ids strictly increase.
pub open spec fn ids_increasing(es: Seq<(u64, AccountV)>) -> bool {
    forall|i: int, j: int| 0 <= i < j < es.len() ==> #[trigger] es[i].0 < #[trigger] es[j].0
}

/// How many of the entries are superuser.
pub open spec fn su_count_spec(es: Seq<(u64, AccountV)>) -> nat
    decreases es.len(),
{
    if es.len() == 0 {
        0
    } else {
        su_count_spec(es.drop_last()) + if es.last().1.is_su {
            1nat
        } else {
            0nat
        }
    }
}

struct Account {
    caps: CapSet,
    baseline: CapSet,
    grants: Vec<String>,
    handle: String,
    is_su: bool,
}

impl View for Account {
    type V = AccountV;

    closed spec fn view(&self) -> AccountV {
        AccountV {
            caps: self.caps@,
            baseline: self.baseline@,
            grants: strings_view(self.grants@),
            handle: self.handle@,
            is_su: self.is_su,
        }
    }
}

/// Model of an account list.
spec fn accounts_view(v: Seq<(AccountId, Account)>) -> Seq<(u64, AccountV)> {
    v.map_values(|e: (AccountId, Account)| (e.0.0, e.1@))
}

/// The live account authority: each account's resolved caps and su bit, by id.
pub struct Accounts {
    accounts: Vec<(AccountId, Account)>,
    next_id: u64,
}

fn resolve_grants(names: &Vec<String>, registry: &CapRegistry) -> (r: Result<(CapSet, CapSet), String>)
    ensures
        match unknown_from(strings_view(names@), 0, registry.names_view()) {
            Some(n) => r matches Err(x) && x@ == n,
            None => r matches Ok((caps, baseline)) && caps@ == grant_ids(strings_view(names@), registry)
                && baseline@ == baseline_ids(strings_view(names@), registry),
        },
{
    proof {
        use_type_invariant(registry);
    }
    let ghost ns = strings_view(names@);
    let mut caps = CapSet::new();
    let mut baseline = CapSet::new();
    let mut k: usize = 0;
    while k < names.len()
        invariant
            k <= names@.len(),
            ns == strings_view(names@),
            registry.names_view().no_duplicates(),
            unknown_from(ns, 0, registry.names_view()) == unknown_from(ns, k as nat, registry.names_view()),
            caps@ == grant_ids(ns.take(k as int), registry),
            baseline@ == baseline_ids(ns.take(k as int), registry),
        decreases names.len() - k,
    {
        let name = &names[k];
        assert(ns[k as int] == name@);
        let id = match registry.resolve(name.as_str()) {
            Some(id) => id,
            None => {
                return Err(name.clone());
            },
        };
        caps.insert(id);
        if !registry.is_quellable(id) {
            baseline.insert(id);
        }
        proof {
            let t0 = ns.take(k as int);
            let t1 = ns.take(k + 1);
            assert(t1 =~= t0.push(name@));
            assert forall|c: CapId| #[trigger] grant_ids(t1, registry).contains(c) <==> grant_ids(t0, registry).insert(id).contains(c) by {
                if grant_ids(t1, registry).contains(c) {
                    let j = choose|j: int| 0 <= j < t1.len() && #[trigger] registry.resolves(t1[j], c);
                    if j < k {
                        assert(t0[j] == t1[j]);
                        assert(registry.resolves(t0[j], c));
                    } else {
                        assert(t1[j] == name@);
                        assert(registry.names_view()[c.0 as int] == registry.names_view()[id.0 as int]);
                        assert(c.0 == id.0);
                        assert(c == id);
                    }
                }
                if grant_ids(t0, registry).contains(c) {
                    let j = choose|j: int| 0 <= j < t0.len() && #[trigger] registry.resolves(t0[j], c);
                    assert(t1[j] == t0[j]);
                    assert(registry.resolves(t1[j], c));
                }
                if c == id {
                    assert(t1[k as int] == name@);
                    assert(registry.resolves(t1[k as int], c));
                }
            }
            assert(grant_ids(t1, registry) =~= grant_ids(t0, registry).insert(id));
            assert(baseline_ids(t1, registry) =~= if !registry.quellable_spec(id) {
                baseline_ids(t0, registry).insert(id)
            } else {
                baseline_ids(t0, registry)
            });
        }
        k = k + 1;
    }
    assert(ns.take(names@.len() as int) =~= ns);
    Ok((caps, baseline))
}

impl Accounts {
    #[verifier::type_invariant]
    spec fn inv(self) -> bool {
        &&& ids_increasing(accounts_view(self.accounts@))
        &&& forall|i: int| 0 <= i < self.accounts@.len() ==> #[trigger] self.accounts@[i].0.0 < self.next_id
    }

    /// The accounts in id order.
    pub closed spec fn entries(&self) -> Seq<(u64, AccountV)> {
        accounts_view(self.accounts@)
    }

    /// The id the next created account receives.
    pub closed spec fn next_id_view(&self) -> u64 {
        self.next_id
    }

    /// The id the next created account receives.
    pub fn next_id(&self) -> (r: u64)
        ensures
            r == self.next_id_view(),
    {
        self.next_id
    }

    /// The accounts by id.
    pub open spec fn map_view(&self) -> Map<u64, AccountV> {
        entries_map(self.entries())
    }

    /// The accounts are in strictly increasing id order, all below the next id.
    pub fn check_wf(&self)
        ensures
            ids_increasing(self.entries()),
            forall|i: int| 0 <= i < self.entries().len() ==> #[trigger] self.entries()[i].0 < self.next_id_view(),
    {
        proof {
            use_type_invariant(self);
        }
    }

    /// Build the authority from a store, resolving each record's grants
    /// against `registry`: an empty store bootstraps one superuser operator; a
    /// populated store with no superuser refuses; an unknown grant refuses.
    pub fn boot<S: AccountStore>(store: &S, registry: &CapRegistry) -> (r: Result<Accounts, AuthError>)
        ensures
            exists|recs: Seq<AccountRecordV>| #[trigger] booted(recs, registry, r) && ids_below_max(recs),
            r matches Ok(a) ==> su_count_spec(a.entries()) >= 1,
            r matches Ok(a) ==> exists|k: u64| #[trigger] a.map_view().dom().contains(k) && a.map_view()[k].is_su,
    {
        let records = store.load();
        let r = Accounts::boot_records(records, registry);
        proof {
            assert(booted(records_view(records@), registry, r));
        }
        r
    }

    /// Build the authority from loaded records.
    pub fn boot_records(records: Vec<AccountRecord>, registry: &CapRegistry) -> (r: Result<Accounts, AuthError>)
        requires
            ids_below_max(records_view(records@)),
        ensures
            match first_unknown(records_view(records@), 0, registry.names_view()) {
                Some((id, name)) => r matches Err(AuthError::UnknownGrant { account, name: n })
                    && account.0 == id && n@ == name,
                None => if records@.len() == 0 {
                    r matches Ok(a) && a.map_view() == Map::<u64, AccountV>::empty().insert(
                        1,
                        fresh_account("operator"@, true),
                    ) && a.next_id_view() == 2
                } else if forall|k: u64| #[trigger]
                    loaded(records_view(records@), records@.len() as int, registry).dom().contains(k)
                        ==> !loaded(records_view(records@), records@.len() as int, registry)[k].is_su {
                    r matches Err(AuthError::NoSuperuser)
                } else {
                    r matches Ok(a) && a.map_view() == loaded(records_view(records@), records@.len() as int, registry)
                        && a.next_id_view() == max_id(records_view(records@), records@.len() as int) + 1
                },
            },
            r matches Ok(a) ==> su_count_spec(a.entries()) >= 1,
            r matches Ok(a) ==> exists|k: u64| #[trigger] a.map_view().dom().contains(k) && a.map_view()[k].is_su,
    {
        let ghost recs = records_view(records@);
        let mut accounts: Vec<(AccountId, Account)> = Vec::new();
        let mut top: u64 = 0;
        proof {
            assert(accounts_view(accounts@) =~= Seq::<(u64, AccountV)>::empty());
            assert(entries_map(accounts_view(accounts@)) =~= loaded(recs, 0, registry));
        }
        let mut k: usize = 0;
        while k < records.len()
            invariant
                k <= records@.len(),
                recs == records_view(records@),
                ids_below_max(recs),
                first_unknown(recs, 0, registry.names_view()) == first_unknown(recs, k as nat, registry.names_view()),
                ids_increasing(accounts_view(accounts@)),
                entries_map(accounts_view(accounts@)) == loaded(recs, k as int, registry),
                top == max_id(recs, k as int),
                forall|i: int| 0 <= i < accounts@.len() ==> #[trigger] accounts@[i].0.0 <= top,
                k == 0 <==> accounts@.len() == 0,
            decreases records.len() - k,
        {
            let rec = &records[k];
            assert(recs[k as int] == rec@);
            let (caps, baseline) = match resolve_grants(&rec.caps, registry) {
                Ok(p) => p,
                Err(name) => {
                    return Err(AuthError::UnknownGrant { account: rec.id, name });
                },
            };
            if rec.id.0 > top {
                top = rec.id.0;
            }
            let account = Account {
                caps,
                baseline,
                grants: copy_strings(&rec.caps),
                handle: rec.handle.clone(),
                is_su: rec.is_su,
            };
            assert(account@ == account_of(rec@, registry));
            insert_sorted(&mut accounts, rec.id, account);
            k = k + 1;
        }
        assert(top < u64::MAX) by {
            if records@.len() > 0 {
                lemma_max_id_is_an_id(recs, records@.len() as int);
            }
        }
        let mut authority = Accounts { accounts, next_id: top + 1 };
        if authority.accounts.len() == 0 {
            proof {
                assert(records@.len() == 0);
            }
            let id = authority.insert(AccountId(0), "operator", true);
            proof {
                assert(authority.map_view() =~= Map::<u64, AccountV>::empty().insert(1, fresh_account("operator"@, true)));
                assert(authority.map_view().dom().contains(1u64) && authority.map_view()[1u64].is_su);
                lemma_su_witness_counts(authority.entries(), 0);
            }
            return Ok(authority);
        }
        if authority.su_count() == 0 {
            proof {
                let m = loaded(recs, records@.len() as int, registry);
                assert forall|key: u64| #[trigger] m.dom().contains(key) implies !m[key].is_su by {
                    let i = choose|i: int| 0 <= i < authority.entries().len() && #[trigger] authority.entries()[i].0 == key;
                    lemma_entry_in_map(authority.entries(), i);
                    if m[key].is_su {
                        lemma_su_witness_counts(authority.entries(), i);
                    }
                }
            }
            return Err(AuthError::NoSuperuser);
        }
        proof {
            let m = loaded(recs, records@.len() as int, registry);
            let i = lemma_su_count_witness(authority.entries());
            let key = authority.entries()[i].0;
            lemma_entry_in_map(authority.entries(), i);
            assert(authority.map_view().dom().contains(key) && authority.map_view()[key].is_su);
            assert(m.dom().contains(key));
        }
        Ok(authority)
    }

    /// Add an account under a fresh id and return that id.
    fn insert(&mut self, unused: AccountId, handle: &str, is_su: bool) -> (r: AccountId)
        requires
            old(self).next_id_view() < u64::MAX,
        ensures
            r.0 == old(self).next_id_view(),
            final(self).next_id_view() == old(self).next_id_view() + 1,
            final(self).entries() == old(self).entries().push((r.0, fresh_account(handle@, is_su))),
            final(self).map_view() == old(self).map_view().insert(r.0, fresh_account(handle@, is_su)),
    {
        proof {
            use_type_invariant(&*self);
        }
        let id = AccountId(self.next_id);
        let account = Account {
            caps: CapSet::new(),
            baseline: CapSet::new(),
            grants: Vec::new(),
            handle: handle.to_owned(),
            is_su,
        };
        assert(strings_view(account.grants@) =~= Seq::<Seq<char>>::empty());
        let ghost old_es = self.entries();
        let mut accounts = Vec::new();
        std::mem::swap(&mut accounts, &mut self.accounts);
        accounts.push((id, account));
        let next = self.next_id + 1;
        proof {
            let es = accounts_view(accounts@);
            assert(es =~= old_es.push((id.0, fresh_account(handle@, is_su))));
            lemma_push_map(old_es, id.0, fresh_account(handle@, is_su));
        }
        *self = Accounts { accounts, next_id: next };
        id
    }

    /// Create a plain account with a login `handle` and no grants or su.
    pub fn create_account(&mut self, handle: &str) -> (r: AccountId)
        requires
            old(self).next_id_view() < u64::MAX,
        ensures
            r.0 == old(self).next_id_view(),
            !old(self).map_view().dom().contains(r.0),
            final(self).next_id_view() == old(self).next_id_view() + 1,
            final(self).map_view() == old(self).map_view().insert(r.0, fresh_account(handle@, false)),
            final(self).entries() == old(self).entries().push((r.0, fresh_account(handle@, false))),
    {
        proof {
            use_type_invariant(&*self);
            if old(self).map_view().dom().contains(old(self).next_id_view()) {
                let i = choose|i: int| 0 <= i < old(self).entries().len() && #[trigger] old(self).entries()[i].0 == old(self).next_id_view();
                assert(old(self).accounts@[i].0.0 < old(self).next_id);
            }
        }
        self.insert(AccountId(0), handle, false)
    }

    /// The lowest-id account with login `handle`, if any.
    pub fn account_by_handle(&self, handle: &str) -> (r: Option<AccountId>)
        ensures
            match r {
                Some(id) => exists|i: int|
                    0 <= i < self.entries().len() && #[trigger] self.entries()[i].0 == id.0
                        && self.entries()[i].1.handle == handle@ && forall|j: int|
                        0 <= j < i ==> self.entries()[j].1.handle != handle@,
                None => forall|i: int| 0 <= i < self.entries().len() ==> #[trigger] self.entries()[i].1.handle != handle@,
            },
    {
        let mut i: usize = 0;
        while i < self.accounts.len()
            invariant
                i <= self.accounts@.len(),
                forall|j: int| 0 <= j < i ==> #[trigger] self.entries()[j].1.handle != handle@,
            decreases self.accounts.len() - i,
        {
            assert(self.entries()[i as int] == (self.accounts@[i as int].0.0, self.accounts@[i as int].1@));
            if crate::text::str_eq(self.accounts[i].1.handle.as_str(), handle) {
                assert(self.entries()[i as int].1.handle == handle@);
                assert(self.entries()[i as int].0 == self.accounts@[i as int].0.0);
                return Some(self.accounts[i].0);
            }
            i = i + 1;
        }
        None
    }

    fn position(&self, id: AccountId) -> (r: Option<usize>)
        ensures
            match r {
                Some(i) => i < self.entries().len() && self.entries()[i as int].0 == id.0,
                None => !self.map_view().dom().contains(id.0),
            },
    {
        let mut i: usize = 0;
        while i < self.accounts.len()
            invariant
                i <= self.accounts@.len(),
                forall|j: int| 0 <= j < i ==> #[trigger] self.entries()[j].0 != id.0,
            decreases self.accounts.len() - i,
        {
            assert(self.entries()[i as int].0 == self.accounts@[i as int].0.0);
            if self.accounts[i].0.0 == id.0 {
                return Some(i);
            }
            i = i + 1;
        }
        None
    }

    /// How many accounts are superuser.
    pub fn su_count(&self) -> (r: usize)
        ensures
            r == su_count_spec(self.entries()),
    {
        let mut n: usize = 0;
        let mut i: usize = 0;
        while i < self.accounts.len()
            invariant
                i <= self.accounts@.len(),
                n == su_count_spec(self.entries().take(i as int)),
                n <= i,
            decreases self.accounts.len() - i,
        {
            proof {
                assert(self.entries().take(i + 1).drop_last() =~= self.entries().take(i as int));
            }
            if self.accounts[i].1.is_su {
                n = n + 1;
            }
            i = i + 1;
        }
        assert(self.entries().take(self.accounts@.len() as int) =~= self.entries());
        n
    }

    /// The lowest-id superuser, if any.
    pub fn stub_operator(&self) -> (r: Option<AccountId>)
        ensures
            match r {
                Some(id) => exists|i: int|
                    0 <= i < self.entries().len() && #[trigger] self.entries()[i].0 == id.0
                        && self.entries()[i].1.is_su && forall|j: int| 0 <= j < i ==> !self.entries()[j].1.is_su,
                None => forall|i: int| 0 <= i < self.entries().len() ==> !(#[trigger] self.entries()[i]).1.is_su,
            },
    {
        let mut i: usize = 0;
        while i < self.accounts.len()
            invariant
                i <= self.accounts@.len(),
                forall|j: int| 0 <= j < i ==> !(#[trigger] self.entries()[j]).1.is_su,
            decreases self.accounts.len() - i,
        {
            assert(self.entries()[i as int] == (self.accounts@[i as int].0.0, self.accounts@[i as int].1@));
            if self.accounts[i].1.is_su {
                assert(self.entries()[i as int].1.is_su);
                assert(self.entries()[i as int].0 == self.accounts@[i as int].0.0);
                return Some(self.accounts[i].0);
            }
            i = i + 1;
        }
        None
    }

    /// The verdict a connection runs under. Un-quelled: the account's caps
    /// with its su bit. Quelled: su suppressed and only the baseline caps. No
    /// account (a guest): no caps and no su.
    pub fn verdict_for(&self, account: Option<AccountId>, quelled: bool) -> (r: Verdict)
        ensures
            match account {
                Some(id) if self.map_view().dom().contains(id.0) => if quelled {
                    r.caps_view() == self.map_view()[id.0].baseline && !r.su()
                } else {
                    r.caps_view() == self.map_view()[id.0].caps && r.su() == self.map_view()[id.0].is_su
                },
                _ => r.caps_view() == Set::<CapId>::empty() && !r.su(),
            },
    {
        proof {
            use_type_invariant(self);
        }
        match account {
            Some(id) => match self.position(id) {
                Some(i) => {
                    proof {
                        lemma_entry_in_map(self.entries(), i as int);
                    }
                    let a = &self.accounts[i].1;
                    if quelled {
                        Verdict::new(a.baseline.copy(), false)
                    } else {
                        Verdict::new(a.caps.copy(), a.is_su)
                    }
                },
                None => Verdict::guest(),
            },
            None => Verdict::guest(),
        }
    }

    /// The current authority as records, in id order, for a store save.
    pub fn to_records(&self) -> (r: Vec<AccountRecord>)
        ensures
            r@.len() == self.entries().len(),
            forall|i: int| 0 <= i < r@.len() ==> (#[trigger] r@[i])@ == (AccountRecordV {
                id: self.entries()[i].0,
                handle: self.entries()[i].1.handle,
                caps: self.entries()[i].1.grants,
                is_su: self.entries()[i].1.is_su,
                version: RECORD_VERSION,
            }),
            ids_below_max(records_view(r@)),
    {
        proof {
            use_type_invariant(self);
        }
        let mut out: Vec<AccountRecord> = Vec::new();
        let mut i: usize = 0;
        while i < self.accounts.len()
            invariant
                i <= self.accounts@.len(),
                out@.len() == i,
                forall|j: int| 0 <= j < self.accounts@.len() ==> #[trigger] self.accounts@[j].0.0 < self.next_id,
                forall|j: int| 0 <= j < i ==> (#[trigger] out@[j])@ == (AccountRecordV {
                    id: self.entries()[j].0,
                    handle: self.entries()[j].1.handle,
                    caps: self.entries()[j].1.grants,
                    is_su: self.entries()[j].1.is_su,
                    version: RECORD_VERSION,
                }),
            decreases self.accounts.len() - i,
        {
            let (id, a) = (&self.accounts[i].0, &self.accounts[i].1);
            out.push(AccountRecord {
                id: *id,
                handle: a.handle.clone(),
                caps: copy_strings(&a.grants),
                is_su: a.is_su,
                version: RECORD_VERSION,
            });
            i = i + 1;
        }
        assert forall|j: int| 0 <= j < out@.len() implies #[trigger] records_view(out@)[j].id < u64::MAX by {
            assert(records_view(out@)[j].id == self.accounts@[j].0.0);
        }
        out
    }
}

/// The largest id of a nonempty record list is one of its ids.
proof fn lemma_max_id_is_an_id(recs: Seq<AccountRecordV>, n: int)
    requires
        0 < n <= recs.len(),
    ensures
        exists|i: int| 0 <= i < n && #[trigger] recs[i].id == max_id(recs, n),
    decreases n,
{
    if n > 1 {
        lemma_max_id_is_an_id(recs, n - 1);
    }
    if max_id(recs, n) == recs[n - 1].id {
    } else {
        let i = choose|i: int| 0 <= i < n - 1 && #[trigger] recs[i].id == max_id(recs, n - 1);
        assert(recs[i].id == max_id(recs, n));
    }
}

/// An entry of an id-ordered list is what the map holds for its id.
proof fn lemma_entry_in_map(es: Seq<(u64, AccountV)>, i: int)
    requires
        ids_increasing(es),
        0 <= i < es.len(),
    ensures
        entries_map(es).dom().contains(es[i].0),
        entries_map(es)[es[i].0] == es[i].1,
{
    let k = choose|k: int| 0 <= k < es.len() && #[trigger] es[k].0 == es[i].0;
    if k != i {
        if k < i {
            assert(es[k].0 < es[i].0);
        } else {
            assert(es[i].0 < es[k].0);
        }
    }
}

/// Appending an entry above every id adds it to the map.
proof fn lemma_push_map(es: Seq<(u64, AccountV)>, id: u64, a: AccountV)
    requires
        ids_increasing(es),
        forall|i: int| 0 <= i < es.len() ==> #[trigger] es[i].0 < id,
    ensures
        entries_map(es.push((id, a))) == entries_map(es).insert(id, a),
{
    let es2 = es.push((id, a));
    assert forall|k: u64| #[trigger] entries_map(es2).dom().contains(k) <==> entries_map(es).insert(id, a).dom().contains(k) by {
        if entries_map(es2).dom().contains(k) {
            let i = choose|i: int| 0 <= i < es2.len() && #[trigger] es2[i].0 == k;
            if i < es.len() {
                assert(es[i].0 == k);
            }
        }
        if entries_map(es).dom().contains(k) {
            let i = choose|i: int| 0 <= i < es.len() && #[trigger] es[i].0 == k;
            assert(es2[i].0 == k);
        }
        if k == id {
            assert(es2[es.len() as int].0 == k);
        }
    }
    assert forall|k: u64| #[trigger] entries_map(es2).dom().contains(k) implies entries_map(es2)[k] == entries_map(es).insert(id, a)[k] by {
        let i = choose|i: int| 0 <= i < es2.len() && #[trigger] es2[i].0 == k;
        if k == id {
            if i < es.len() {
                assert(es[i].0 < id);
            }
            assert(es2[i] == (id, a));
            assert(entries_map(es2)[k] == es2[i].1);
        } else {
            assert(i < es.len());
            assert(es2[i] == es[i]);
            assert(es[i].0 == k);
            assert(entries_map(es).dom().contains(k));
            let j = choose|j: int| 0 <= j < es.len() && #[trigger] es[j].0 == k;
            if i != j {
                if i < j {
                    assert(es[i].0 < es[j].0);
                } else {
                    assert(es[j].0 < es[i].0);
                }
            }
            assert(entries_map(es2)[k] == es2[i].1);
            assert(entries_map(es)[k] == es[j].1);
        }
    }
    assert(entries_map(es2) =~= entries_map(es).insert(id, a));
}

/// A superuser entry counts toward the superuser total.
proof fn lemma_su_witness_counts(es: Seq<(u64, AccountV)>, i: int)
    requires
        0 <= i < es.len(),
        es[i].1.is_su,
    ensures
        su_count_spec(es) >= 1,
    decreases es.len(),
{
    if i < es.len() - 1 {
        assert(es.drop_last()[i] == es[i]);
        lemma_su_witness_counts(es.drop_last(), i);
    }
}

/// A positive superuser total has a superuser entry.
proof fn lemma_su_count_witness(es: Seq<(u64, AccountV)>) -> (i: int)
    requires
        su_count_spec(es) >= 1,
    ensures
        0 <= i < es.len(),
        es[i].1.is_su,
    decreases es.len(),
{
    if es.last().1.is_su {
        (es.len() - 1) as int
    } else {
        let j = lemma_su_count_witness(es.drop_last());
        assert(es[j] == es.drop_last()[j]);
        j
    }
}

/// Insert or replace the account for `id`, keeping ids in increasing order.
fn insert_sorted(v: &mut Vec<(AccountId, Account)>, id: AccountId, account: Account)
    requires
        ids_increasing(accounts_view(old(v)@)),
    ensures
        ids_increasing(accounts_view(final(v)@)),
        entries_map(accounts_view(final(v)@)) == entries_map(accounts_view(old(v)@)).insert(id.0, account@),
        final(v)@.len() >= 1,
        forall|i: int|
            0 <= i < final(v)@.len() ==> (#[trigger] final(v)@[i]).0.0 == id.0 || entries_map(
                accounts_view(old(v)@),
            ).dom().contains(final(v)@[i].0.0),
{
    let ghost es = accounts_view(v@);
    let ghost a = account@;
    let mut p: usize = 0;
    while p < v.len() && v[p].0.0 < id.0
        invariant
            p <= v@.len(),
            es == accounts_view(v@),
            forall|j: int| 0 <= j < p ==> #[trigger] es[j].0 < id.0,
        decreases v.len() - p,
    {
        p = p + 1;
    }
    if p < v.len() && v[p].0.0 == id.0 {
        v.set(p, (id, account));
        proof {
            let es2 = accounts_view(v@);
            assert(es2 =~= es.update(p as int, (id.0, a)));
            lemma_update_map(es, p as int, a);
            assert forall|i: int| 0 <= i < es2.len() implies (#[trigger] v@[i]).0.0 == id.0 || entries_map(es).dom().contains(v@[i].0.0) by {
                if i != p {
                    assert(es2[i] == es[i]);
                    assert(es[i].0 == v@[i].0.0);
                }
            }
        }
    } else {
        v.insert(p, (id, account));
        proof {
            let es2 = accounts_view(v@);
            assert(es2 =~= es.insert(p as int, (id.0, a)));
            assert forall|j: int| p <= j < es.len() implies id.0 < #[trigger] es[j].0 by {
                if j > p {
                    assert(es[p as int].0 < es[j].0);
                }
            }
            lemma_insert_map(es, p as int, id.0, a);
            assert forall|i: int| 0 <= i < es2.len() implies (#[trigger] v@[i]).0.0 == id.0 || entries_map(es).dom().contains(v@[i].0.0) by {
                if i < p {
                    assert(es2[i] == es[i]);
                    assert(es[i].0 == v@[i].0.0);
                } else if i > p {
                    assert(es2[i] == es[i - 1]);
                    assert(es[i - 1].0 == v@[i].0.0);
                }
            }
        }
    }
}

/// Replacing the account at a position keeps the ids and updates the map.
proof fn lemma_update_map(es: Seq<(u64, AccountV)>, p: int, a: AccountV)
    requires
        ids_increasing(es),
        0 <= p < es.len(),
    ensures
        ids_increasing(es.update(p, (es[p].0, a))),
        entries_map(es.update(p, (es[p].0, a))) == entries_map(es).insert(es[p].0, a),
{
    let id = es[p].0;
    let es2 = es.update(p, (id, a));
    assert forall|i: int, j: int| 0 <= i < j < es2.len() implies #[trigger] es2[i].0 < #[trigger] es2[j].0 by {
        assert(es[i].0 < es[j].0);
    }
    assert forall|k: u64| #[trigger] entries_map(es2).dom().contains(k) <==> entries_map(es).insert(id, a).dom().contains(k) by {
        if entries_map(es2).dom().contains(k) {
            let i = choose|i: int| 0 <= i < es2.len() && #[trigger] es2[i].0 == k;
            assert(es[i].0 == k);
        }
        if entries_map(es).dom().contains(k) {
            let i = choose|i: int| 0 <= i < es.len() && #[trigger] es[i].0 == k;
            assert(es2[i].0 == k);
        }
        if k == id {
            assert(es2[p].0 == k);
        }
    }
    assert forall|k: u64| #[trigger] entries_map(es2).dom().contains(k) implies entries_map(es2)[k] == entries_map(es).insert(id, a)[k] by {
        let i = choose|i: int| 0 <= i < es2.len() && #[trigger] es2[i].0 == k;
        if k == id {
            if i != p {
                if i < p {
                    assert(es[i].0 < es[p].0);
                } else {
                    assert(es[p].0 < es[i].0);
                }
            }
        } else {
            assert(i != p);
            assert(es[i].0 == k);
            let j = choose|j: int| 0 <= j < es.len() && #[trigger] es[j].0 == k;
            if i != j {
                if i < j {
                    assert(es[i].0 < es[j].0);
                } else {
                    assert(es[j].0 < es[i].0);
                }
            }
        }
    }
    assert(entries_map(es2) =~= entries_map(es).insert(id, a));
}

/// Inserting a new id at its sorted position keeps the ids increasing and
/// adds it to the map.
proof fn lemma_insert_map(es: Seq<(u64, AccountV)>, p: int, id: u64, a: AccountV)
    requires
        ids_increasing(es),
        0 <= p <= es.len(),
        forall|j: int| 0 <= j < p ==> #[trigger] es[j].0 < id,
        forall|j: int| p <= j < es.len() ==> id < #[trigger] es[j].0,
    ensures
        ids_increasing(es.insert(p, (id, a))),
        entries_map(es.insert(p, (id, a))) == entries_map(es).insert(id, a),
{
    let es2 = es.insert(p, (id, a));
    assert forall|i: int, j: int| 0 <= i < j < es2.len() implies #[trigger] es2[i].0 < #[trigger] es2[j].0 by {
        if i < p && j < p {
            assert(es[i].0 < es[j].0);
        } else if i < p && j == p {
        } else if i < p && j > p {
            assert(es2[j] == es[j - 1]);
            assert(es[i].0 < es[j - 1].0);
        } else if i == p {
            assert(es2[j] == es[j - 1]);
        } else {
            assert(es2[i] == es[i - 1] && es2[j] == es[j - 1]);
            assert(es[i - 1].0 < es[j - 1].0);
        }
    }
    assert forall|k: u64| #[trigger] entries_map(es2).dom().contains(k) <==> entries_map(es).insert(id, a).dom().contains(k) by {
        if entries_map(es2).dom().contains(k) {
            let i = choose|i: int| 0 <= i < es2.len() && #[trigger] es2[i].0 == k;
            if i < p {
                assert(es[i].0 == k);
            } else if i > p {
                assert(es[i - 1].0 == k);
            }
        }
        if entries_map(es).dom().contains(k) {
            let i = choose|i: int| 0 <= i < es.len() && #[trigger] es[i].0 == k;
            if i < p {
                assert(es2[i].0 == k);
            } else {
                assert(es2[i + 1].0 == k);
            }
        }
        if k == id {
            assert(es2[p].0 == k);
        }
    }
    assert forall|k: u64| #[trigger] entries_map(es2).dom().contains(k) implies entries_map(es2)[k] == entries_map(es).insert(id, a)[k] by {
        let i = choose|i: int| 0 <= i < es2.len() && #[trigger] es2[i].0 == k;
        if k == id {
            if i < p {
                assert(es2[i] == es[i]);
                assert(es[i].0 < id);
            } else if i > p {
                assert(es2[i] == es[i - 1]);
                assert(es[i - 1].0 > id);
            }
            assert(i == p);
            assert(es2[p] == (id, a));
            assert(entries_map(es2)[k] == es2[i].1);
        } else {
            assert(i != p);
            let i0 = if i < p { i } else { i - 1 };
            assert(es2[i] == es[i0]);
            assert(es[i0].0 == k);
            assert(entries_map(es).dom().contains(k));
            let j = choose|j: int| 0 <= j < es.len() && #[trigger] es[j].0 == k;
            if i0 != j {
                if i0 < j {
                    assert(es[i0].0 < es[j].0);
                } else {
                    assert(es[j].0 < es[i0].0);
                }
            }
            assert(entries_map(es2)[k] == es2[i].1);
            assert(entries_map(es)[k] == es[j].1);
        }
    }
    assert(entries_map(es2) =~= entries_map(es).insert(id, a));
}

/// The id a registered name resolves to.
pub open spec fn cap_of(reg: &CapRegistry, name: Seq<char>) -> CapId {
    choose|c: CapId| reg.resolves(name, c)
}

/// An account after granting `cap` (named `name`): the grant is recorded once,
/// and a non-quellable cap also joins the baseline.
pub open spec fn granted(a: AccountV, cap: CapId, name: Seq<char>, quellable: bool) -> AccountV {
    AccountV {
        caps: a.caps.insert(cap),
        baseline: if quellable {
            a.baseline
        } else {
            a.baseline.insert(cap)
        },
        grants: if a.caps.contains(cap) {
            a.grants
        } else {
            a.grants.push(name)
        },
        ..a
    }
}

/// An account after revoking `cap` (named `name`).
pub open spec fn revoked(a: AccountV, cap: CapId, name: Seq<char>) -> AccountV {
    AccountV {
        caps: a.caps.remove(cap),
        baseline: a.baseline.remove(cap),
        grants: a.grants.filter(|g: Seq<char>| g != name),
        ..a
    }
}

fn without_name(grants: &Vec<String>, name: &str) -> (r: Vec<String>)
    ensures
        strings_view(r@) == strings_view(grants@).filter(|g: Seq<char>| g != name@),
{
    let ghost gs = strings_view(grants@);
    let ghost pred = |g: Seq<char>| g != name@;
    let mut out: Vec<String> = Vec::new();
    assert(gs.take(0).filter(pred) =~= Seq::<Seq<char>>::empty());
    assert(strings_view(out@) =~= gs.take(0).filter(pred));
    let mut i: usize = 0;
    while i < grants.len()
        invariant
            i <= grants@.len(),
            gs == strings_view(grants@),
            pred == (|g: Seq<char>| g != name@),
            strings_view(out@) == gs.take(i as int).filter(pred),
        decreases grants.len() - i,
    {
        let ghost prev = strings_view(out@);
        assert(gs[i as int] == grants@[i as int]@);
        if !crate::text::str_eq(grants[i].as_str(), name) {
            out.push(grants[i].clone());
            assert(strings_view(out@) =~= prev.push(gs[i as int]));
        }
        proof {
            assert(gs.take(i + 1) =~= gs.take(i as int).push(gs[i as int]));
            gs.take(i as int).lemma_filter_push(gs[i as int], pred);
        }
        i = i + 1;
    }
    assert(gs.take(grants@.len() as int) =~= gs);
    out
}

impl Accounts {
    /// Swap the account at position `i` for `account`.
    fn replace_at(&mut self, i: usize, account: Account)
        requires
            i < old(self).entries().len(),
        ensures
            final(self).entries() == old(self).entries().update(i as int, (old(self).entries()[i as int].0, account@)),
            final(self).map_view() == old(self).map_view().insert(old(self).entries()[i as int].0, account@),
            final(self).next_id_view() == old(self).next_id_view(),
    {
        proof {
            use_type_invariant(&*self);
        }
        let ghost es = self.entries();
        let ghost a = account@;
        let next = self.next_id;
        let mut accounts = Vec::new();
        std::mem::swap(&mut accounts, &mut self.accounts);
        let id = accounts[i].0;
        accounts.set(i, (id, account));
        proof {
            assert(accounts_view(accounts@) =~= es.update(i as int, (es[i as int].0, a)));
            lemma_update_map(es, i as int, a);
            assert forall|j: int| 0 <= j < accounts@.len() implies #[trigger] accounts@[j].0.0 < next by {
                assert(accounts_view(accounts@)[j].0 == es[j].0);
                assert(es[j].0 == old(self).accounts@[j].0.0);
            }
        }
        *self = Accounts { accounts, next_id: next };
    }

    /// Grant capability `cap_name` to an account. Idempotent: the grant is
    /// recorded once, and a non-quellable cap also joins the baseline.
    pub fn grant(&mut self, id: AccountId, cap_name: &str, registry: &CapRegistry) -> (r: Result<(), AccountError>)
        ensures
            final(self).next_id_view() == old(self).next_id_view(),
            !registry.names_view().contains(cap_name@) ==> (r matches Err(AccountError::UnknownCap(n)) && n@ == cap_name@),
            registry.names_view().contains(cap_name@) && !old(self).map_view().dom().contains(id.0) ==> r == Err::<(), AccountError>(AccountError::NoSuchAccount(id)),
            r is Err ==> final(self).entries() == old(self).entries(),
            r is Ok <==> registry.names_view().contains(cap_name@) && old(self).map_view().dom().contains(id.0),
            r is Ok ==> final(self).map_view() == old(self).map_view().insert(
                id.0,
                granted(
                    old(self).map_view()[id.0],
                    cap_of(registry, cap_name@),
                    cap_name@,
                    registry.quellable_spec(cap_of(registry, cap_name@)),
                ),
            ),
    {
        proof {
            use_type_invariant(&*self);
        }
        let cap = match registry.resolve(cap_name) {
            Some(c) => c,
            None => {
                return Err(AccountError::UnknownCap(cap_name.to_owned()));
            },
        };
        proof {
            use_type_invariant(registry);
            let c = cap_of(registry, cap_name@);
            assert(registry.resolves(cap_name@, c));
            assert(registry.names_view()[c.0 as int] == registry.names_view()[cap.0 as int]);
            assert(c.0 == cap.0);
        }
        let i = match self.position(id) {
            Some(i) => i,
            None => {
                return Err(AccountError::NoSuchAccount(id));
            },
        };
        proof {
            lemma_entry_in_map(self.entries(), i as int);
        }
        let quellable = registry.is_quellable(cap);
        let old_account = &self.accounts[i].1;
        let mut caps = old_account.caps.copy();
        let mut baseline = old_account.baseline.copy();
        let mut grants = copy_strings(&old_account.grants);
        let fresh = caps.insert(cap);
        if fresh {
            let ghost before = strings_view(grants@);
            grants.push(cap_name.to_owned());
            assert(strings_view(grants@) =~= before.push(cap_name@));
        }
        if !quellable {
            baseline.insert(cap);
        }
        let account = Account { caps, baseline, grants, handle: old_account.handle.clone(), is_su: old_account.is_su };
        self.replace_at(i, account);
        Ok(())
    }

    /// Revoke capability `cap_name` from an account; a no-op if it was not
    /// held.
    pub fn revoke(&mut self, id: AccountId, cap_name: &str, registry: &CapRegistry) -> (r: Result<(), AccountError>)
        ensures
            final(self).next_id_view() == old(self).next_id_view(),
            !registry.names_view().contains(cap_name@) ==> (r matches Err(AccountError::UnknownCap(n)) && n@ == cap_name@),
            registry.names_view().contains(cap_name@) && !old(self).map_view().dom().contains(id.0) ==> r == Err::<(), AccountError>(AccountError::NoSuchAccount(id)),
            r is Err ==> final(self).entries() == old(self).entries(),
            r is Ok <==> registry.names_view().contains(cap_name@) && old(self).map_view().dom().contains(id.0),
            r is Ok ==> final(self).map_view() == old(self).map_view().insert(
                id.0,
                revoked(old(self).map_view()[id.0], cap_of(registry, cap_name@), cap_name@),
            ),
    {
        proof {
            use_type_invariant(&*self);
        }
        let cap = match registry.resolve(cap_name) {
            Some(c) => c,
            None => {
                return Err(AccountError::UnknownCap(cap_name.to_owned()));
            },
        };
        proof {
            use_type_invariant(registry);
            let c = cap_of(registry, cap_name@);
            assert(registry.resolves(cap_name@, c));
            assert(registry.names_view()[c.0 as int] == registry.names_view()[cap.0 as int]);
            assert(c.0 == cap.0);
        }
        let i = match self.position(id) {
            Some(i) => i,
            None => {
                return Err(AccountError::NoSuchAccount(id));
            },
        };
        proof {
            lemma_entry_in_map(self.entries(), i as int);
        }
        let old_account = &self.accounts[i].1;
        let mut caps = old_account.caps.copy();
        let mut baseline = old_account.baseline.copy();
        caps.remove(cap);
        baseline.remove(cap);
        let grants = without_name(&old_account.grants, cap_name);
        let account = Account { caps, baseline, grants, handle: old_account.handle.clone(), is_su: old_account.is_su };
        self.replace_at(i, account);
        Ok(())
    }
}

} // verus!
