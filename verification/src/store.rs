//! The in-memory credential store: accounts (unique names) that each hold
//! labeled API keys (unique labels), bound to the path of the file they are
//! persisted in.

use vstd::prelude::*;

verus! {

/// One credential: a label and the secret value stored under it.
pub struct ScaleApiKey {
    pub name: String,
    pub value: String,
}

/// A named group of credentials. Key labels are unique within an account.
pub struct ScaleAccount {
    pub name: String,
    pub keys: Vec<ScaleApiKey>,
}

/// The whole store: accounts with unique names, bound to a file path.
pub struct ScaleCredentials {
    pub filepath: String,
    pub accounts: Vec<ScaleAccount>,
}

/// Mathematical image of one key: (label, value).
pub type KeyV = (Seq<char>, Seq<char>);

/// Mathematical image of one account: (name, keys in storage order).
pub type AccountV = (Seq<char>, Seq<KeyV>);

impl View for ScaleApiKey {
    type V = KeyV;

    open spec fn view(&self) -> KeyV {
        (self.name@, self.value@)
    }
}

impl View for ScaleAccount {
    type V = AccountV;

    open spec fn view(&self) -> AccountV {
        (self.name@, self.keys@.map_values(|k: ScaleApiKey| k@))
    }
}

/// Labels are pairwise distinct.
pub open spec fn keys_wf(ks: Seq<KeyV>) -> bool {
    forall|i: int, j: int| 0 <= i < j < ks.len() ==> ks[i].0 != ks[j].0
}

/// Account names are pairwise distinct and every account's labels are too.
pub open spec fn accounts_wf(st: Seq<AccountV>) -> bool {
    &&& forall|i: int, j: int| 0 <= i < j < st.len() ==> st[i].0 != st[j].0
    &&& forall|i: int| 0 <= i < st.len() ==> keys_wf(#[trigger] st[i].1)
}

/// The keys of one account, abstracted to a map from label to value.
/// Later entries win, which is irrelevant once labels are unique.
pub open spec fn keys_map(ks: Seq<KeyV>) -> Map<Seq<char>, Seq<char>>
    decreases ks.len(),
{
    if ks.len() == 0 {
        Map::empty()
    } else {
        keys_map(ks.drop_last()).insert(ks.last().0, ks.last().1)
    }
}

/// A whole store, abstracted to a map from account name to its label/value map.
pub open spec fn accounts_map(st: Seq<AccountV>) -> Map<Seq<char>, Map<Seq<char>, Seq<char>>>
    decreases st.len(),
{
    if st.len() == 0 {
        Map::empty()
    } else {
        accounts_map(st.drop_last()).insert(st.last().0, keys_map(st.last().1))
    }
}

/// Insert-or-replace of one (account, label, value) triple at the map level:
/// the account is created empty if absent, and the label's value is replaced
/// unconditionally.
pub open spec fn upsert(
    m: Map<Seq<char>, Map<Seq<char>, Seq<char>>>,
    account: Seq<char>,
    label: Seq<char>,
    value: Seq<char>,
) -> Map<Seq<char>, Map<Seq<char>, Seq<char>>> {
    let ks = if m.contains_key(account) {
        m[account]
    } else {
        Map::<Seq<char>, Seq<char>>::empty()
    };
    m.insert(account, ks.insert(label, value))
}

/// Insert-or-replace at the sequence level: the key holding `l`, if any, is
/// dropped, and (`l`, `v`) is appended. With unique labels the dropped
/// position is the unique one.
pub open spec fn upsert_seq(ks: Seq<KeyV>, l: Seq<char>, v: Seq<char>) -> Seq<KeyV> {
    if exists|j: int| 0 <= j < ks.len() && ks[j].0 == l {
        let j = choose|j: int| 0 <= j < ks.len() && ks[j].0 == l;
        ks.remove(j).push((l, v))
    } else {
        ks.push((l, v))
    }
}

/// An account name the text format can carry on a section-header line.
pub open spec fn name_ok(n: Seq<char>) -> bool {
    forall|i: int| 0 <= i < n.len() ==> n[i] != ']' && n[i] != '\n'
}

/// A key label the text format can carry on the left of `=`.
pub open spec fn label_ok(l: Seq<char>) -> bool {
    &&& forall|i: int| 0 <= i < l.len() ==> l[i] != '=' && l[i] != '\n'
    &&& (l.len() > 0 ==> l[0] != '[')
}

/// A value the text format can carry on the right of `=`.
pub open spec fn value_ok(v: Seq<char>) -> bool {
    forall|i: int| 0 <= i < v.len() ==> v[i] != '\n'
}

pub open spec fn key_ok(k: KeyV) -> bool {
    label_ok(k.0) && value_ok(k.1)
}

pub open spec fn account_ok(a: AccountV) -> bool {
    &&& name_ok(a.0)
    &&& forall|i: int| 0 <= i < a.1.len() ==> key_ok(#[trigger] a.1[i])
}

/// Every name, label and value in the store survives a trip through the
/// text format.
pub open spec fn doc_ok(st: Seq<AccountV>) -> bool {
    forall|i: int| 0 <= i < st.len() ==> account_ok(#[trigger] st[i])
}

/// `keys_map` holds a label exactly when some key carries it.
pub proof fn lemma_keys_map_contains(ks: Seq<KeyV>, l: Seq<char>)
    ensures
        keys_map(ks).contains_key(l) <==> exists|i: int| 0 <= i < ks.len() && ks[i].0 == l,
    decreases ks.len(),
{
    if ks.len() > 0 {
        lemma_keys_map_contains(ks.drop_last(), l);
        if ks.last().0 != l {
            if exists|i: int| 0 <= i < ks.len() && ks[i].0 == l {
                let i = choose|i: int| 0 <= i < ks.len() && ks[i].0 == l;
                assert(i < ks.len() - 1 && ks.drop_last()[i] == ks[i]);
            }
            if exists|i: int| 0 <= i < ks.drop_last().len() && ks.drop_last()[i].0 == l {
                let i = choose|i: int| 0 <= i < ks.drop_last().len() && ks.drop_last()[i].0 == l;
                assert(ks[i] == ks.drop_last()[i]);
            }
        }
    }
}

/// With unique labels, `keys_map` sends each key's label to its value.
pub proof fn lemma_keys_map_at(ks: Seq<KeyV>, i: int)
    requires
        keys_wf(ks),
        0 <= i < ks.len(),
    ensures
        keys_map(ks).contains_key(ks[i].0),
        keys_map(ks)[ks[i].0] == ks[i].1,
    decreases ks.len(),
{
    if i < ks.len() - 1 {
        assert(ks.drop_last()[i] == ks[i]);
        lemma_keys_map_at(ks.drop_last(), i);
    }
}

/// Appending a key inserts its pair into the map.
pub proof fn lemma_keys_map_push(ks: Seq<KeyV>, k: KeyV)
    ensures
        keys_map(ks.push(k)) == keys_map(ks).insert(k.0, k.1),
{
    assert(ks.push(k).drop_last() =~= ks);
}

/// With unique labels, removing the key at `i` removes its label from the map.
pub proof fn lemma_keys_map_remove(ks: Seq<KeyV>, i: int)
    requires
        keys_wf(ks),
        0 <= i < ks.len(),
    ensures
        keys_map(ks.remove(i)) == keys_map(ks).remove(ks[i].0),
    decreases ks.len(),
{
    if i == ks.len() - 1 {
        assert(ks.remove(i) =~= ks.drop_last());
        lemma_keys_map_contains(ks.drop_last(), ks[i].0);
        assert forall|j: int| 0 <= j < ks.drop_last().len() implies ks.drop_last()[j].0 != ks[i].0 by {
            assert(ks.drop_last()[j] == ks[j]);
        }
        assert(keys_map(ks.drop_last()) =~= keys_map(ks).remove(ks[i].0));
    } else {
        assert(ks.remove(i).drop_last() =~= ks.drop_last().remove(i));
        assert(ks.remove(i).last() == ks.last());
        assert forall|a: int, b: int| 0 <= a < b < ks.drop_last().len() implies ks.drop_last()[a].0
            != ks.drop_last()[b].0 by {
            assert(ks.drop_last()[a] == ks[a] && ks.drop_last()[b] == ks[b]);
        }
        lemma_keys_map_remove(ks.drop_last(), i);
        assert(ks.drop_last()[i] == ks[i]);
        assert(ks.last().0 != ks[i].0);
        assert(keys_map(ks.remove(i)) =~= keys_map(ks).remove(ks[i].0));
    }
}

/// `accounts_map` holds a name exactly when some account carries it.
pub proof fn lemma_accounts_map_contains(st: Seq<AccountV>, n: Seq<char>)
    ensures
        accounts_map(st).contains_key(n) <==> exists|i: int| 0 <= i < st.len() && st[i].0 == n,
    decreases st.len(),
{
    if st.len() > 0 {
        lemma_accounts_map_contains(st.drop_last(), n);
        if st.last().0 != n {
            if exists|i: int| 0 <= i < st.len() && st[i].0 == n {
                let i = choose|i: int| 0 <= i < st.len() && st[i].0 == n;
                assert(i < st.len() - 1 && st.drop_last()[i] == st[i]);
            }
            if exists|i: int| 0 <= i < st.drop_last().len() && st.drop_last()[i].0 == n {
                let i = choose|i: int| 0 <= i < st.drop_last().len() && st.drop_last()[i].0 == n;
                assert(st[i] == st.drop_last()[i]);
            }
        }
    }
}

/// With unique names, `accounts_map` sends each account's name to its keys.
pub proof fn lemma_accounts_map_at(st: Seq<AccountV>, i: int)
    requires
        accounts_wf(st),
        0 <= i < st.len(),
    ensures
        accounts_map(st).contains_key(st[i].0),
        accounts_map(st)[st[i].0] == keys_map(st[i].1),
    decreases st.len(),
{
    if i < st.len() - 1 {
        assert(st.drop_last()[i] == st[i]);
        assert(accounts_wf(st.drop_last())) by {
            assert forall|a: int| 0 <= a < st.drop_last().len() implies keys_wf(
                #[trigger] st.drop_last()[a].1,
            ) by {
                assert(st.drop_last()[a] == st[a]);
            }
        }
        lemma_accounts_map_at(st.drop_last(), i);
    }
}

/// Appending an account inserts its pair into the map.
pub proof fn lemma_accounts_map_push(st: Seq<AccountV>, a: AccountV)
    ensures
        accounts_map(st.push(a)) == accounts_map(st).insert(a.0, keys_map(a.1)),
{
    assert(st.push(a).drop_last() =~= st);
}

/// With unique names, removing the account at `i` removes its name.
pub proof fn lemma_accounts_map_remove(st: Seq<AccountV>, i: int)
    requires
        accounts_wf(st),
        0 <= i < st.len(),
    ensures
        accounts_map(st.remove(i)) == accounts_map(st).remove(st[i].0),
    decreases st.len(),
{
    if i == st.len() - 1 {
        assert(st.remove(i) =~= st.drop_last());
        lemma_accounts_map_contains(st.drop_last(), st[i].0);
        assert forall|j: int| 0 <= j < st.drop_last().len() implies st.drop_last()[j].0 != st[i].0 by {
            assert(st.drop_last()[j] == st[j]);
        }
        assert(accounts_map(st.drop_last()) =~= accounts_map(st).remove(st[i].0));
    } else {
        assert(st.remove(i).drop_last() =~= st.drop_last().remove(i));
        assert(st.remove(i).last() == st.last());
        assert(accounts_wf(st.drop_last())) by {
            assert forall|a: int| 0 <= a < st.drop_last().len() implies keys_wf(
                #[trigger] st.drop_last()[a].1,
            ) by {
                assert(st.drop_last()[a] == st[a]);
            }
        }
        lemma_accounts_map_remove(st.drop_last(), i);
        assert(st.drop_last()[i] == st[i]);
        assert(st.last().0 != st[i].0);
        assert(accounts_map(st.remove(i)) =~= accounts_map(st).remove(st[i].0));
    }
}

/// Position of the first account named `name`, if any.
pub(crate) fn find_account(accounts: &Vec<ScaleAccount>, name: &String) -> (r: Option<usize>)
    ensures
        match r {
            Some(i) => i < accounts@.len() && accounts@[i as int].name@ == name@,
            None => forall|j: int| 0 <= j < accounts@.len() ==> accounts@[j].name@ != name@,
        },
{
    let mut i: usize = 0;
    while i < accounts.len()
        invariant
            i <= accounts@.len(),
            forall|j: int| 0 <= j < i ==> accounts@[j].name@ != name@,
        decreases accounts@.len() - i,
    {
        if accounts[i].name == *name {
            return Some(i);
        }
        i = i + 1;
    }
    None
}

/// Position of the first key labeled `label`, if any.
fn find_key(keys: &Vec<ScaleApiKey>, label: &String) -> (r: Option<usize>)
    ensures
        match r {
            Some(j) => j < keys@.len() && keys@[j as int].name@ == label@,
            None => forall|j: int| 0 <= j < keys@.len() ==> keys@[j].name@ != label@,
        },
{
    let mut i: usize = 0;
    while i < keys.len()
        invariant
            i <= keys@.len(),
            forall|j: int| 0 <= j < i ==> keys@[j].name@ != label@,
        decreases keys@.len() - i,
    {
        if keys[i].name == *label {
            return Some(i);
        }
        i = i + 1;
    }
    None
}

impl ScaleAccount {
    /// Insert-or-replace within this account: any existing key labeled
    /// `label` is dropped, then a key (`label`, `value`) is appended. The
    /// prior value, if any, is not kept.
    pub fn upsert_key(&mut self, label: &String, value: &String)
        requires
            keys_wf(old(self)@.1),
        ensures
            final(self)@.0 == old(self)@.0,
            final(self)@.1 == upsert_seq(old(self)@.1, label@, value@),
            keys_wf(final(self)@.1),
            keys_map(final(self)@.1) == keys_map(old(self)@.1).insert(label@, value@),
            (forall|i: int| 0 <= i < old(self)@.1.len() ==> key_ok(#[trigger] old(self)@.1[i]))
                && label_ok(label@) && value_ok(value@) ==> forall|i: int|
                0 <= i < final(self)@.1.len() ==> key_ok(#[trigger] final(self)@.1[i]),
    {
        let ghost ks0 = self@.1;
        match find_key(&self.keys, label) {
            Some(j) => {
                let _dropped = self.keys.remove(j);
                proof {
                    assert(self@.1 =~= ks0.remove(j as int));
                    lemma_keys_map_remove(ks0, j as int);
                    assert forall|a: int, b: int|
                        0 <= a < b < ks0.remove(j as int).len() implies ks0.remove(j as int)[a].0
                        != ks0.remove(j as int)[b].0 by {
                        assert(ks0.remove(j as int)[a] == if a < j { ks0[a] } else { ks0[a + 1] });
                        assert(ks0.remove(j as int)[b] == if b < j { ks0[b] } else { ks0[b + 1] });
                    }
                    assert forall|a: int| 0 <= a < ks0.remove(j as int).len() implies ks0.remove(
                        j as int,
                    )[a].0 != label@ by {
                        assert(ks0.remove(j as int)[a] == if a < j { ks0[a] } else { ks0[a + 1] });
                    }
                    assert(upsert_seq(ks0, label@, value@) == ks0.remove(j as int).push(
                        (label@, value@),
                    )) by {
                        let j2 = choose|x: int| 0 <= x < ks0.len() && ks0[x].0 == label@;
                        assert(ks0[j as int].0 == label@);
                        assert(j2 == j);
                    }
                }
            },
            None => {
                proof {
                    assert forall|j: int| 0 <= j < ks0.len() implies ks0[j].0 != label@ by {
                        assert(ks0[j] == self.keys@[j]@);
                    }
                }
            },
        }
        let ghost ks1 = self@.1;
        self.keys.push(ScaleApiKey { name: label.clone(), value: value.clone() });
        proof {
            assert(self@.1 =~= ks1.push((label@, value@)));
            lemma_keys_map_push(ks1, (label@, value@));
            assert(keys_map(self@.1) =~= keys_map(ks0).insert(label@, value@));
            assert forall|a: int, b: int| 0 <= a < b < self@.1.len() implies self@.1[a].0
                != self@.1[b].0 by {
                if b < self@.1.len() - 1 {
                    assert(self@.1[a] == ks1[a] && self@.1[b] == ks1[b]);
                }
            }
        }
    }
}

impl ScaleCredentials {
    /// The store's accounts, in storage order, at the mathematical level.
    pub open spec fn accounts_view(&self) -> Seq<AccountV> {
        self.accounts@.map_values(|a: ScaleAccount| a@)
    }

    /// The path of the file this store is persisted in.
    pub open spec fn path(&self) -> Seq<char> {
        self.filepath@
    }

    /// Internal invariant: unique account names, unique labels per account.
    pub open spec fn wf(&self) -> bool {
        accounts_wf(self.accounts_view())
    }

    /// The store abstracted to its map of maps; insertion order forgotten.
    pub open spec fn store_map(&self) -> Map<Seq<char>, Map<Seq<char>, Seq<char>>> {
        accounts_map(self.accounts_view())
    }

    /// An empty store bound to `fp`. No I/O is performed and no input is
    /// rejected.
    pub fn new(fp: &String) -> (r: ScaleCredentials)
        ensures
            r.path() == fp@,
            r.accounts_view() == Seq::<AccountV>::empty(),
            r.store_map() == Map::<Seq<char>, Map<Seq<char>, Seq<char>>>::empty(),
            r.wf(),
    {
        let r = ScaleCredentials { filepath: fp.clone(), accounts: Vec::new() };
        proof {
            assert(r.accounts_view() =~= Seq::<AccountV>::empty());
        }
        r
    }

    /// Insert-or-replace one (account, label, value) triple. The account is
    /// created if absent; an existing value under the same label is replaced
    /// unconditionally. All inputs are accepted as opaque strings.
    pub fn add_entry(self, account: &String, label: &String, value: &String) -> (r:
        ScaleCredentials)
        requires
            self.wf(),
        ensures
            r.wf(),
            r.path() == self.path(),
            r.store_map() == upsert(self.store_map(), account@, label@, value@),
            doc_ok(self.accounts_view()) && name_ok(account@) && label_ok(label@) && value_ok(
                value@,
            ) ==> doc_ok(r.accounts_view()),
    {
        let ghost st0 = self.accounts_view();
        let mut s = self;
        match find_account(&s.accounts, account) {
            Some(i) => {
                let mut acc = s.accounts.remove(i);
                proof {
                    assert(acc@ == st0[i as int]);
                    assert(s.accounts_view() =~= st0.remove(i as int));
                }
                acc.upsert_key(label, value);
                let ghost accv = acc@;
                let ghost st1 = s.accounts_view();
                s.accounts.push(acc);
                proof {
                    assert(s.accounts_view() =~= st1.push(accv));
                    assert forall|a: int| 0 <= a < st1.len() implies st1[a] == (if a < i {
                        st0[a]
                    } else {
                        st0[a + 1]
                    }) by {}
                    assert forall|a: int, b: int| 0 <= a < b < st1.len() implies st1[a].0
                        != st1[b].0 by {}
                    assert forall|a: int| 0 <= a < st1.len() implies st1[a].0 != account@ by {}
                    lemma_accounts_map_remove(st0, i as int);
                    lemma_accounts_map_at(st0, i as int);
                    lemma_accounts_map_push(st1, accv);
                    assert(s.store_map() =~= upsert(
                        accounts_map(st0),
                        account@,
                        label@,
                        value@,
                    ));
                }
                s
            },
            None => {
                let mut acc = ScaleAccount { name: account.clone(), keys: Vec::new() };
                proof {
                    assert(acc@.1 =~= Seq::<KeyV>::empty());
                }
                acc.upsert_key(label, value);
                let ghost accv = acc@;
                s.accounts.push(acc);
                proof {
                    assert(s.accounts_view() =~= st0.push(accv));
                    lemma_accounts_map_push(st0, accv);
                    lemma_accounts_map_contains(st0, account@);
                    assert(keys_map(accv.1) =~= keys_map(Seq::<KeyV>::empty()).insert(
                        label@,
                        value@,
                    ));
                    assert(s.store_map() =~= upsert(
                        accounts_map(st0),
                        account@,
                        label@,
                        value@,
                    ));
                }
                s
            },
        }
    }
}

impl ScaleCredentials {
    /// Look up an account by name. An absent name is an ordinary `None`,
    /// never a failure.
    pub fn account<'a>(&'a self, name: &String) -> (r: Option<&'a ScaleAccount>)
        requires
            self.wf(),
        ensures
            match r {
                Some(a) => self.store_map().contains_key(name@) && a@.0 == name@ && keys_map(a@.1)
                    == self.store_map()[name@],
                None => !self.store_map().contains_key(name@),
            },
    {
        match find_account(&self.accounts, name) {
            Some(i) => {
                proof {
                    lemma_accounts_map_at(self.accounts_view(), i as int);
                }
                Some(&self.accounts[i])
            },
            None => {
                proof {
                    lemma_accounts_map_contains(self.accounts_view(), name@);
                    assert forall|x: int|
                        0 <= x < self.accounts_view().len() implies #[trigger] self.accounts_view()[x].0
                        != name@ by {
                        assert(self.accounts_view()[x] == self.accounts@[x]@);
                    }
                }
                None
            },
        }
    }

    /// All account names, in storage order.
    pub fn account_names(&self) -> (r: Vec<String>)
        ensures
            r@.len() == self.accounts_view().len(),
            forall|x: int| 0 <= x < r@.len() ==> r@[x]@ == self.accounts_view()[x].0,
    {
        let mut out: Vec<String> = Vec::new();
        let mut i: usize = 0;
        while i < self.accounts.len()
            invariant
                i <= self.accounts@.len(),
                out@.len() == i,
                forall|x: int| 0 <= x < i ==> out@[x]@ == self.accounts_view()[x].0,
            decreases self.accounts@.len() - i,
        {
            out.push(self.accounts[i].name.clone());
            i = i + 1;
        }
        out
    }
}

impl ScaleAccount {
    /// The (label, value) pairs of this account, in storage order.
    pub fn entries(&self) -> (r: Vec<(String, String)>)
        ensures
            r@.len() == self@.1.len(),
            forall|x: int| 0 <= x < r@.len() ==> (r@[x].0@, r@[x].1@) == self@.1[x],
    {
        let mut out: Vec<(String, String)> = Vec::new();
        let mut i: usize = 0;
        while i < self.keys.len()
            invariant
                i <= self.keys@.len(),
                out@.len() == i,
                forall|x: int| 0 <= x < i ==> (out@[x].0@, out@[x].1@) == self@.1[x],
            decreases self.keys@.len() - i,
        {
            out.push((self.keys[i].name.clone(), self.keys[i].value.clone()));
            i = i + 1;
        }
        out
    }
}

/// Inserting one triple twice gives the same store map as inserting it once.
pub proof fn lemma_upsert_idempotent(
    m: Map<Seq<char>, Map<Seq<char>, Seq<char>>>,
    account: Seq<char>,
    label: Seq<char>,
    value: Seq<char>,
)
    ensures
        upsert(upsert(m, account, label, value), account, label, value) == upsert(
            m,
            account,
            label,
            value,
        ),
{
    assert(upsert(upsert(m, account, label, value), account, label, value) =~= upsert(
        m,
        account,
        label,
        value,
    )) by {
        assert(upsert(m, account, label, value)[account].insert(label, value) =~= upsert(
            m,
            account,
            label,
            value,
        )[account]);
    }
}

/// Inserting two values in turn under one (account, label) leaves exactly
/// the second value there.
pub proof fn lemma_upsert_overwrites(
    m: Map<Seq<char>, Map<Seq<char>, Seq<char>>>,
    account: Seq<char>,
    label: Seq<char>,
    v1: Seq<char>,
    v2: Seq<char>,
)
    ensures
        upsert(upsert(m, account, label, v1), account, label, v2) == upsert(m, account, label, v2),
        upsert(m, account, label, v2)[account][label] == v2,
{
    assert(upsert(upsert(m, account, label, v1), account, label, v2) =~= upsert(
        m,
        account,
        label,
        v2,
    )) by {
        assert(upsert(m, account, label, v1)[account].insert(label, v2) =~= (if m.contains_key(
            account,
        ) {
            m[account]
        } else {
            Map::<Seq<char>, Seq<char>>::empty()
        }).insert(label, v2));
    }
}

} // verus!

