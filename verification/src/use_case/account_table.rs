use vstd::prelude::*;

use crate::model::account::{Account, AccountView};

verus! {

/// The mapping a table of accounts stands for: later entries win, though a
/// well-formed table never holds a client twice.
pub open spec fn table_model(s: Seq<Account>) -> Map<u16, AccountView>
    decreases s.len(),
{
    if s.len() == 0 {
        Map::empty()
    } else {
        table_model(s.drop_last()).insert(s.last().client, s.last()@)
    }
}

/// No client appears under two entries.
pub open spec fn clients_unique(s: Seq<Account>) -> bool {
    forall|i: int, j: int| 0 <= i < j < s.len() ==> s[i].client != s[j].client
}

/// A client is in the model exactly when some entry carries it.
pub proof fn lemma_table_model_membership(s: Seq<Account>, c: u16)
    ensures
        table_model(s).contains_key(c) <==> exists|i: int| 0 <= i < s.len() && s[i].client == c,
    decreases s.len(),
{
    if s.len() > 0 {
        lemma_table_model_membership(s.drop_last(), c);
        if s.last().client == c {
            assert(s[s.len() - 1].client == c);
        } else if table_model(s).contains_key(c) {
            let i = choose|i: int| 0 <= i < s.drop_last().len() && s.drop_last()[i].client == c;
            assert(s[i].client == c);
        } else if exists|i: int| 0 <= i < s.len() && s[i].client == c {
            let i = choose|i: int| 0 <= i < s.len() && s[i].client == c;
            assert(s.drop_last()[i].client == c);
        }
    }
}

/// Under uniqueness, each entry is the model's value for its client.
pub proof fn lemma_table_model_index(s: Seq<Account>, i: int)
    requires
        clients_unique(s),
        0 <= i < s.len(),
    ensures
        table_model(s).contains_key(s[i].client),
        table_model(s)[s[i].client] == s[i]@,
    decreases s.len(),
{
    if i < s.len() - 1 {
        assert(clients_unique(s.drop_last())) by {
            assert forall|x: int, y: int| 0 <= x < y < s.drop_last().len()
                implies s.drop_last()[x].client != s.drop_last()[y].client by {
                assert(s[x].client != s[y].client);
            }
        }
        lemma_table_model_index(s.drop_last(), i);
        assert(s.drop_last()[i] == s[i]);
        assert(s[i].client != s.last().client);
    }
}

/// Under uniqueness, the model has exactly one key per entry.
pub proof fn lemma_table_model_len(s: Seq<Account>)
    requires
        clients_unique(s),
    ensures
        table_model(s).len() == s.len(),
        table_model(s).dom().finite(),
    decreases s.len(),
{
    if s.len() > 0 {
        assert(clients_unique(s.drop_last())) by {
            assert forall|x: int, y: int| 0 <= x < y < s.drop_last().len()
                implies s.drop_last()[x].client != s.drop_last()[y].client by {
                assert(s[x].client != s[y].client);
            }
        }
        lemma_table_model_len(s.drop_last());
        lemma_table_model_membership(s.drop_last(), s.last().client);
        assert forall|i: int| 0 <= i < s.drop_last().len()
            implies s.drop_last()[i].client != s.last().client by {
            assert(s[i].client != s[s.len() - 1].client);
        }
        assert(!table_model(s.drop_last()).contains_key(s.last().client));
    }
}

/// Under uniqueness, replacing the entry of a client updates its model value
/// and nothing else.
pub proof fn lemma_table_model_update(s: Seq<Account>, i: int, a: Account)
    requires
        clients_unique(s),
        0 <= i < s.len(),
        a.client == s[i].client,
    ensures
        table_model(s.update(i, a)) == table_model(s).insert(a.client, a@),
    decreases s.len(),
{
    let t = s.update(i, a);
    if i == s.len() - 1 {
        assert(t.drop_last() =~= s.drop_last());
        assert(table_model(t) =~= table_model(s).insert(a.client, a@));
    } else {
        assert(clients_unique(s.drop_last())) by {
            assert forall|x: int, y: int| 0 <= x < y < s.drop_last().len()
                implies s.drop_last()[x].client != s.drop_last()[y].client by {
                assert(s[x].client != s[y].client);
            }
        }
        lemma_table_model_update(s.drop_last(), i, a);
        assert(t.drop_last() =~= s.drop_last().update(i, a));
        assert(t.last() == s.last());
        assert(a.client != s.last().client);
        assert(table_model(t) =~= table_model(s).insert(a.client, a@));
    }
}

/// The table of all accounts of one run, keyed by client and created lazily
/// on first reference.
pub struct AccountTable {
    pub accounts: Vec<Account>,
}

impl View for AccountTable {
    type V = Map<u16, AccountView>;

    open spec fn view(&self) -> Map<u16, AccountView> {
        table_model(self.accounts@)
    }
}

impl AccountTable {
    /// One entry per client, each account well formed.
    pub open spec fn wf(self) -> bool {
        &&& clients_unique(self.accounts@)
        &&& forall|i: int| 0 <= i < self.accounts@.len() ==> (#[trigger] self.accounts@[i])@.wf()
    }

    /// An empty table.
    pub fn new() -> (r: AccountTable)
        ensures
            r.wf(),
            r@ == Map::<u16, AccountView>::empty(),
    {
        AccountTable { accounts: Vec::new() }
    }

    /// The entry of `client`, if the table has one.
    pub(crate) fn find_index(&self, client: u16) -> (r: Option<usize>)
        ensures
            match r {
                Some(i) => i < self.accounts@.len() && self.accounts@[i as int].client == client,
                None => forall|i: int| 0 <= i < self.accounts@.len()
                    ==> (#[trigger] self.accounts@[i]).client != client,
            },
    {
        let mut i: usize = 0;
        while i < self.accounts.len()
            invariant
                i <= self.accounts@.len(),
                forall|j: int| 0 <= j < i ==> (#[trigger] self.accounts@[j]).client != client,
            decreases self.accounts@.len() - i,
        {
            if self.accounts[i].client == client {
                return Some(i);
            }
            i += 1;
        }
        None
    }

    /// Whether `client` has an account yet.
    pub fn contains_key(&self, client: u16) -> (r: bool)
        ensures
            r == self@.contains_key(client),
    {
        proof {
            lemma_table_model_membership(self.accounts@, client);
        }
        match self.find_index(client) {
            Some(_) => true,
            None => false,
        }
    }

    /// The account of `client`, if the table has one.
    pub fn get(&self, client: u16) -> (r: Option<&Account>)
        requires
            self.wf(),
        ensures
            match r {
                Some(a) => self@.contains_key(client) && a@ == self@[client] && a.client == client,
                None => !self@.contains_key(client),
            },
    {
        proof {
            lemma_table_model_membership(self.accounts@, client);
        }
        match self.find_index(client) {
            Some(i) => {
                proof {
                    lemma_table_model_index(self.accounts@, i as int);
                }
                Some(&self.accounts[i])
            },
            None => None,
        }
    }

    /// Add or replace the account of `account.client`.
    pub fn insert(&mut self, account: Account)
        requires
            old(self).wf(),
            account@.wf(),
        ensures
            final(self).wf(),
            final(self)@ == old(self)@.insert(account.client, account@),
    {
        let ghost s0 = self.accounts@;
        match self.find_index(account.client) {
            Some(i) => {
                let _ = self.accounts.remove(i);
                self.accounts.insert(i, account);
                proof {
                    assert(self.accounts@ =~= s0.update(i as int, account));
                    lemma_table_model_update(s0, i as int, account);
                    assert forall|x: int| 0 <= x < self.accounts@.len()
                        implies (#[trigger] self.accounts@[x])@.wf() by {
                        if x != i {
                            assert(self.accounts@[x] == s0[x]);
                        }
                    }
                }
            },
            None => {
                self.accounts.push(account);
                proof {
                    assert(self.accounts@.drop_last() =~= s0);
                    assert forall|x: int| 0 <= x < self.accounts@.len()
                        implies (#[trigger] self.accounts@[x])@.wf() by {
                        if x < s0.len() {
                            assert(self.accounts@[x] == s0[x]);
                        }
                    }
                }
            },
        }
    }

    /// How many clients have an account.
    pub fn len(&self) -> (r: usize)
        requires
            self.wf(),
        ensures
            r == self@.len(),
    {
        proof {
            lemma_table_model_len(self.accounts@);
        }
        self.accounts.len()
    }

    /// Consume the table into the final collection of accounts, one per
    /// client seen, in first-seen order.
    pub fn drain(self) -> (r: Vec<Account>)
        requires
            self.wf(),
        ensures
            table_model(r@) == self@,
            clients_unique(r@),
            r@.len() == self@.len(),
            forall|i: int| 0 <= i < r@.len()
                ==> self@.contains_key((#[trigger] r@[i]).client) && r@[i]@ == self@[r@[i].client],
    {
        proof {
            lemma_table_model_len(self.accounts@);
            assert forall|i: int| 0 <= i < self.accounts@.len()
                implies self@.contains_key((#[trigger] self.accounts@[i]).client)
                    && self.accounts@[i]@ == self@[self.accounts@[i].client] by {
                lemma_table_model_index(self.accounts@, i);
            }
        }
        self.accounts
    }
}

} // verus!
