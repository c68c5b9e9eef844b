//! Refresh-token storage. Access tokens stay in memory only.
use vstd::prelude::*;
use crate::error::AppError;
use crate::text::{owned, same_text};

verus! {

/// Where refresh tokens live, one per account. Implemented by the OS
/// keyring store of the program and by [`MemoryStore`].
pub trait SecretStore {
    fn save_refresh_token(&mut self, account: &str, token: &str) -> Result<(), AppError>;

    fn load_refresh_token(&self, account: &str) -> Result<Option<String>, AppError>;

    fn clear_refresh_token(&mut self, account: &str) -> Result<(), AppError>;
}

/// The map that a list of `(account, token)` entries stands for: a later
/// entry of an account wins.
pub open spec fn entries_map(e: Seq<(String, String)>) -> Map<Seq<char>, Seq<char>>
    decreases e.len(),
{
    if e.len() == 0 {
        Map::empty()
    } else {
        entries_map(e.drop_last()).insert(e.last().0@, e.last().1@)
    }
}

/// The entries of accounts other than `account`.
pub open spec fn without_account(e: Seq<(String, String)>, account: Seq<char>) -> Seq<(String, String)> {
    e.filter(|x: (String, String)| x.0@ != account)
}

proof fn lemma_entries_map_without(e: Seq<(String, String)>, account: Seq<char>)
    ensures
        entries_map(without_account(e, account)) =~= entries_map(e).remove(account),
    decreases e.len(),
{
    reveal(Seq::filter);
    if e.len() > 0 {
        let init = e.drop_last();
        let x = e.last();
        lemma_entries_map_without(init, account);
        let f = without_account(e, account);
        let fi = without_account(init, account);
        if x.0@ != account {
            assert(f == fi.push(x));
            assert(f.drop_last() =~= fi);
            assert(entries_map(f) == entries_map(fi).insert(x.0@, x.1@));
        } else {
            assert(f == fi);
        }
    }
}

proof fn lemma_entries_map_tail(e: Seq<(String, String)>, account: Seq<char>, i: int)
    requires
        0 <= i <= e.len(),
        forall|j: int| i <= j < e.len() ==> (#[trigger] e[j]).0@ != account,
    ensures
        entries_map(e).contains_key(account) == entries_map(e.take(i)).contains_key(account),
        entries_map(e).contains_key(account) ==> entries_map(e)[account] == entries_map(
            e.take(i),
        )[account],
    decreases e.len(),
{
    if e.len() > i {
        assert(e.drop_last().take(i) =~= e.take(i));
        lemma_entries_map_tail(e.drop_last(), account, i);
    } else {
        assert(e.take(i) =~= e);
    }
}

/// In-memory store for tests and for running without a keyring.
pub struct MemoryStore {
    entries: Vec<(String, String)>,
}

impl View for MemoryStore {
    type V = Map<Seq<char>, Seq<char>>;

    closed spec fn view(&self) -> Map<Seq<char>, Seq<char>> {
        entries_map(self.entries@)
    }
}

impl Default for MemoryStore {
    fn default() -> (s: MemoryStore)
        ensures
            s@ == Map::<Seq<char>, Seq<char>>::empty(),
    {
        MemoryStore { entries: Vec::new() }
    }
}

impl MemoryStore {
    /// An empty store.
    pub fn new() -> (s: MemoryStore)
        ensures
            s@ == Map::<Seq<char>, Seq<char>>::empty(),
    {
        MemoryStore { entries: Vec::new() }
    }

    /// The entries of accounts other than `account`, in order.
    fn entries_without(&self, account: &str) -> (r: Vec<(String, String)>)
        ensures
            r@ == without_account(self.entries@, account@),
    {
        let mut kept: Vec<(String, String)> = Vec::new();
        let mut i: usize = 0;
        while i < self.entries.len()
            invariant
                i <= self.entries@.len(),
                kept@ == without_account(self.entries@.take(i as int), account@),
            decreases self.entries.len() - i,
        {
            let ghost e = self.entries@;
            proof {
                reveal(Seq::filter);
                assert(e.take(i + 1).drop_last() =~= e.take(i as int));
            }
            if !same_text(self.entries[i].0.as_str(), account) {
                let a = self.entries[i].0.clone();
                let t = self.entries[i].1.clone();
                kept.push((a, t));
                proof {
                    assert(kept@ =~= without_account(e.take(i as int), account@).push(e[i as int]));
                }
            }
            i = i + 1;
        }
        proof {
            assert(self.entries@.take(i as int) =~= self.entries@);
        }
        kept
    }

    /// The token stored for `account`, if any.
    fn lookup(&self, account: &str) -> (r: Option<String>)
        ensures
            match r {
                Some(t) => self@.contains_key(account@) && self@[account@] == t@,
                None => !self@.contains_key(account@),
            },
    {
        let mut i: usize = self.entries.len();
        while i > 0
            invariant
                i <= self.entries@.len(),
                forall|j: int| i <= j < self.entries@.len() ==> (#[trigger] self.entries@[j]).0@
                    != account@,
            decreases i,
        {
            if same_text(self.entries[i - 1].0.as_str(), account) {
                proof {
                    let e = self.entries@;
                    lemma_entries_map_tail(e, account@, i as int);
                    assert(e.take(i as int).drop_last() =~= e.take(i - 1));
                }
                return Some(self.entries[i - 1].1.clone());
            }
            i = i - 1;
        }
        proof {
            lemma_entries_map_tail(self.entries@, account@, 0);
            assert(self.entries@.take(0) =~= Seq::<(String, String)>::empty());
        }
        None
    }
}

impl SecretStore for MemoryStore {
    /// Stores `token` for `account`, replacing an earlier one. Never fails.
    fn save_refresh_token(&mut self, account: &str, token: &str) -> (r: Result<(), AppError>)
        ensures
            r is Ok,
            final(self)@ == old(self)@.insert(account@, token@),
    {
        let mut kept = self.entries_without(account);
        kept.push((owned(account), owned(token)));
        proof {
            lemma_entries_map_without(old(self).entries@, account@);
            assert(kept@.drop_last() =~= without_account(old(self).entries@, account@));
            assert(entries_map(kept@) =~= old(self)@.insert(account@, token@));
        }
        self.entries = kept;
        Ok(())
    }

    /// The token stored for `account`, or `None`. Never fails.
    fn load_refresh_token(&self, account: &str) -> (r: Result<Option<String>, AppError>)
        ensures
            match r {
                Ok(Some(t)) => self@.contains_key(account@) && self@[account@] == t@,
                Ok(None) => !self@.contains_key(account@),
                Err(_) => false,
            },
    {
        Ok(self.lookup(account))
    }

    /// Forgets the token of `account`. Never fails.
    fn clear_refresh_token(&mut self, account: &str) -> (r: Result<(), AppError>)
        ensures
            r is Ok,
            final(self)@ == old(self)@.remove(account@),
    {
        let kept = self.entries_without(account);
        proof {
            lemma_entries_map_without(old(self).entries@, account@);
        }
        self.entries = kept;
        Ok(())
    }
}

/// What the OS credential store answered about one account.
#[derive(Debug, Clone, PartialEq, Eq)]
pub enum Credential {
    /// A stored secret (or, for a write or a delete, success).
    Found(String),
    /// The store has no entry for the account.
    Missing,
    /// The store could not be reached or refused the request.
    Unavailable,
}

/// The error every credential-store failure becomes; it names no detail.
pub fn store_unavailable() -> (r: AppError)
    ensures
        r matches AppError::Security(m) && m@ == "credential store unavailable"@,
{
    AppError::Security(owned("credential store unavailable"))
}

/// A load from the OS store: a missing entry is no session, not an error.
pub fn load_outcome(c: Credential) -> (r: Result<Option<String>, AppError>)
    ensures
        match c {
            Credential::Found(pw) => r == Ok::<Option<String>, AppError>(Some(pw)),
            Credential::Missing => r == Ok::<Option<String>, AppError>(None),
            Credential::Unavailable => r matches Err(AppError::Security(m)) && m@
                == "credential store unavailable"@,
        },
{
    match c {
        Credential::Found(pw) => Ok(Some(pw)),
        Credential::Missing => Ok(None),
        Credential::Unavailable => Err(store_unavailable()),
    }
}

/// A save or a clear of the OS store: clearing a missing entry succeeds.
pub fn write_outcome(c: Credential) -> (r: Result<(), AppError>)
    ensures
        match c {
            Credential::Unavailable => r matches Err(AppError::Security(m)) && m@
                == "credential store unavailable"@,
            _ => r is Ok,
        },
{
    match c {
        Credential::Unavailable => Err(store_unavailable()),
        _ => Ok(()),
    }
}

/// Law: a load right after a save gives back the saved token, and every
/// other account keeps what it had.
pub proof fn lemma_load_after_save(
    before: Map<Seq<char>, Seq<char>>,
    account: Seq<char>,
    token: Seq<char>,
    other: Seq<char>,
)
    ensures
        before.insert(account, token).contains_key(account),
        before.insert(account, token)[account] == token,
        other != account ==> before.insert(account, token).contains_key(other)
            == before.contains_key(other),
        other != account && before.contains_key(other) ==> before.insert(account, token)[other]
            == before[other],
{
}

/// Law: after a clear the account has no token, and every other account
/// keeps what it had.
pub proof fn lemma_load_after_clear(
    before: Map<Seq<char>, Seq<char>>,
    account: Seq<char>,
    other: Seq<char>,
)
    ensures
        !before.remove(account).contains_key(account),
        other != account ==> before.remove(account).contains_key(other) == before.contains_key(
            other,
        ),
        other != account && before.contains_key(other) ==> before.remove(account)[other]
            == before[other],
{
}

} // verus!
