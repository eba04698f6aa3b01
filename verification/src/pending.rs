//! The requests that wait for their response.
use vstd::prelude::*;
use crate::key::Key;

verus! {

/// One request that waits for its response: the token that the response must
/// carry, and the handle through which the response is handed on.
pub struct PendingEntry<T> {
    pub token: Key,
    pub sender: T,
}

/// The handle that a list of entries holds under `token`: that of the last
/// entry with that token.
pub open spec fn find_sender<T>(entries: Seq<PendingEntry<T>>, token: Seq<u8>) -> Option<T>
    decreases entries.len(),
{
    if entries.len() == 0 {
        None
    } else if entries.last().token@ == token {
        Some(entries.last().sender)
    } else {
        find_sender(entries.drop_last(), token)
    }
}

/// Whether no two entries of the list have one token.
pub open spec fn distinct_tokens<T>(entries: Seq<PendingEntry<T>>) -> bool {
    forall|i: int, j: int|
        0 <= i < entries.len() && 0 <= j < entries.len() && i != j ==> (#[trigger] entries[i]).token@
            != (#[trigger] entries[j]).token@
}

/// The table that correlates responses with the requests they answer: a map
/// from the token of each request that is under way to the handle of the
/// single-shot channel on which its sender waits.
pub struct PendingRequests<T> {
    entries: Vec<PendingEntry<T>>,
}

impl<T> View for PendingRequests<T> {
    type V = Map<Seq<u8>, T>;

    closed spec fn view(&self) -> Map<Seq<u8>, T> {
        Map::new(
            |token: Seq<u8>| find_sender(self.entries@, token) is Some,
            |token: Seq<u8>| find_sender(self.entries@, token)->0,
        )
    }
}

impl<T> PendingRequests<T> {
    /// Whether the table holds no token twice.
    pub closed spec fn wf(&self) -> bool {
        distinct_tokens(self.entries@)
    }

    /// Constructs a new, empty table.
    pub fn new() -> (pending: PendingRequests<T>)
        ensures
            pending.wf(),
            pending@ == Map::<Seq<u8>, T>::empty(),
    {
        let pending = PendingRequests { entries: Vec::new() };
        assert(pending@ =~= Map::<Seq<u8>, T>::empty());
        pending
    }

    /// The place of the entry with the token `token`.
    fn index_of(&self, token: &Key) -> (found: Option<usize>)
        requires
            self.wf(),
        ensures
            match found {
                Some(index) => index < self.entries@.len() && self.entries@[index as int].token@
                    == token@ && find_sender(self.entries@, token@) == Some(
                    self.entries@[index as int].sender,
                ),
                None => find_sender(self.entries@, token@) is None && forall|i: int|
                    0 <= i < self.entries@.len() ==> (#[trigger] self.entries@[i]).token@ != token@,
            },
    {
        let mut i: usize = 0;
        while i < self.entries.len()
            invariant
                i <= self.entries.len(),
                self.wf(),
                forall|j: int| 0 <= j < i ==> (#[trigger] self.entries@[j]).token@ != token@,
            decreases self.entries.len() - i,
        {
            if self.entries[i].token == *token {
                proof {
                    lemma_sender_at(self.entries@, i as int);
                }
                return Some(i);
            }
            i += 1;
        }
        proof {
            lemma_no_sender(self.entries@, token@);
        }
        None
    }

    /// The number of requests that wait.
    pub fn len(&self) -> (len: usize)
        requires
            self.wf(),
        ensures
            self@.dom().finite(),
            len == self@.dom().len(),
    {
        proof {
            lemma_token_count(self.entries@);
            assert(self@.dom() =~= token_set(self.entries@));
        }
        self.entries.len()
    }

    /// Returns `true` if a request with the token `token` waits.
    pub fn contains_key(&self, token: &Key) -> (found: bool)
        requires
            self.wf(),
        ensures
            found == self@.contains_key(token@),
    {
        self.index_of(token).is_some()
    }

    /// The handle of the request with the token `token`, `None` where no
    /// such request waits.
    pub fn get(&self, token: &Key) -> (sender: Option<&T>)
        requires
            self.wf(),
        ensures
            match sender {
                Some(sender) => self@.contains_key(token@) && *sender == self@[token@],
                None => !self@.contains_key(token@),
            },
    {
        match self.index_of(token) {
            Some(index) => Some(&self.entries[index].sender),
            None => None,
        }
    }

    /// Registers a request under `token`, in place of the request that
    /// waited under it, whose handle is returned.
    pub fn insert(&mut self, token: Key, sender: T) -> (replaced: Option<T>)
        requires
            old(self).wf(),
        ensures
            final(self).wf(),
            final(self)@ == old(self)@.insert(token@, sender),
            match replaced {
                Some(replaced) => old(self)@.contains_key(token@) && replaced == old(self)@[token@],
                None => !old(self)@.contains_key(token@),
            },
    {
        let ghost before = self.entries@;
        let ghost map = self@;
        let replaced = self.remove(&token);
        let ghost without = self.entries@;
        let entry = PendingEntry { token, sender };
        self.entries.push(entry);
        proof {
            assert(find_sender(without, token@) is None);
            lemma_no_sender(without, token@);
            assert(self.entries@ =~= without.push(entry));
            assert(self.entries@.drop_last() =~= without);
            let removed = map.remove(token@);
            assert forall|other: Seq<u8>| #[trigger]
                self@.contains_key(other) == map.insert(token@, sender).contains_key(other) && (
                self@.contains_key(other) ==> self@[other] == map.insert(token@, sender)[other]) by {
                if other != token@ {
                    assert(find_sender(self.entries@, other) == find_sender(without, other));
                    assert(removed.contains_key(other) == (find_sender(without, other) is Some));
                    if removed.contains_key(other) {
                        assert(removed[other] == find_sender(without, other)->0);
                    }
                }
            }
            assert(self@ =~= map.insert(token@, sender));
        }
        replaced
    }

    /// Takes the request with the token `token` out of the table, and
    /// returns its handle; `None` where no such request waits.
    pub fn remove(&mut self, token: &Key) -> (removed: Option<T>)
        requires
            old(self).wf(),
        ensures
            final(self).wf(),
            final(self)@ == old(self)@.remove(token@),
            !final(self)@.contains_key(token@),
            match removed {
                Some(removed) => old(self)@.contains_key(token@) && removed == old(self)@[token@],
                None => !old(self)@.contains_key(token@),
            },
    {
        let ghost before = self.entries@;
        match self.index_of(token) {
            Some(index) => {
                let entry = self.entries.remove(index);
                proof {
                    assert(self.entries@ =~= before.remove(index as int));
                    lemma_remove_pending(before, index as int);
                    lemma_no_sender(self.entries@, token@);
                    assert(self@ =~= old(self)@.remove(token@)) by {
                        assert forall|other: Seq<u8>| #[trigger]
                            self@.contains_key(other) == old(self)@.remove(token@).contains_key(
                                other,
                            ) && (self@.contains_key(other) ==> self@[other] == old(self)@.remove(
                                token@,
                            )[other]) by {
                            if other != token@ {
                                lemma_remove_other(before, index as int, other);
                            }
                        }
                    }
                }
                Some(entry.sender)
            },
            None => {
                assert(self@ =~= old(self)@.remove(token@));
                None
            },
        }
    }

    /// Draws random tokens until one is drawn under which no request waits,
    /// and returns it. Gives up, with `None`, after `usize::MAX` draws; the
    /// first draw is enough where no request waits.
    pub fn fresh_token(&self) -> (token: Option<Key>)
        requires
            self.wf(),
        ensures
            token is Some ==> !self@.contains_key(token->0@),
            self@ == Map::<Seq<u8>, T>::empty() ==> token is Some,
    {
        let mut left: usize = usize::MAX;
        while left > 0
            invariant
                self.wf(),
                left == usize::MAX || self@ != Map::<Seq<u8>, T>::empty(),
            decreases left,
        {
            let token = Key::rand();
            if !self.contains_key(&token) {
                return Some(token);
            }
            left -= 1;
        }
        None
    }
}

/// A list of entries holds a handle under a token exactly where one of its
/// entries has that token.
pub proof fn lemma_no_sender<T>(entries: Seq<PendingEntry<T>>, token: Seq<u8>)
    ensures
        find_sender(entries, token) is None <==> forall|i: int|
            0 <= i < entries.len() ==> (#[trigger] entries[i]).token@ != token,
    decreases entries.len(),
{
    if entries.len() > 0 {
        let init = entries.drop_last();
        lemma_no_sender(init, token);
        if entries.last().token@ != token {
            if find_sender(init, token) is None {
                assert forall|i: int| 0 <= i < entries.len() implies (#[trigger] entries[i]).token@
                    != token by {
                    if i < init.len() {
                        assert(init[i] == entries[i]);
                    }
                }
            } else {
                let i = choose|i: int| 0 <= i < init.len() && (#[trigger] init[i]).token@ == token;
                assert(entries[i] == init[i]);
            }
        } else {
            assert(entries[entries.len() - 1].token@ == token);
        }
    }
}

/// In a list with distinct tokens, the handle held under the token of an
/// entry is that of the entry.
pub proof fn lemma_sender_at<T>(entries: Seq<PendingEntry<T>>, index: int)
    requires
        distinct_tokens(entries),
        0 <= index < entries.len(),
    ensures
        find_sender(entries, entries[index].token@) == Some(entries[index].sender),
    decreases entries.len(),
{
    if index < entries.len() - 1 {
        let init = entries.drop_last();
        assert(entries[entries.len() - 1].token@ != entries[index].token@);
        assert(init[index] == entries[index]);
        assert forall|i: int, j: int|
            0 <= i < init.len() && 0 <= j < init.len() && i != j implies (#[trigger] init[i]).token@
            != (#[trigger] init[j]).token@ by {
            assert(init[i] == entries[i] && init[j] == entries[j]);
        }
        lemma_sender_at(init, index);
    }
}

/// A list with distinct tokens that loses an entry has distinct tokens, and
/// does not hold the token of that entry.
pub proof fn lemma_remove_pending<T>(entries: Seq<PendingEntry<T>>, index: int)
    requires
        distinct_tokens(entries),
        0 <= index < entries.len(),
    ensures
        distinct_tokens(entries.remove(index)),
        forall|i: int|
            0 <= i < entries.remove(index).len() ==> (#[trigger] entries.remove(index)[i]).token@
                != entries[index].token@,
{
    let out = entries.remove(index);
    assert forall|i: int| 0 <= i < out.len() implies (#[trigger] out[i]).token@
        != entries[index].token@ by {
        let a = if i < index { i } else { i + 1 };
        assert(out[i] == entries[a]);
    }
    assert forall|i: int, j: int| 0 <= i < out.len() && 0 <= j < out.len() && i != j implies (
    #[trigger] out[i]).token@ != (#[trigger] out[j]).token@ by {
        let a = if i < index { i } else { i + 1 };
        let b = if j < index { j } else { j + 1 };
        assert(out[i] == entries[a] && out[j] == entries[b]);
    }
}

/// Under another token a list that loses an entry holds what it held.
pub proof fn lemma_remove_other<T>(entries: Seq<PendingEntry<T>>, index: int, token: Seq<u8>)
    requires
        0 <= index < entries.len(),
        token != entries[index].token@,
    ensures
        find_sender(entries.remove(index), token) == find_sender(entries, token),
    decreases entries.len(),
{
    let out = entries.remove(index);
    let init = entries.drop_last();
    if index == entries.len() - 1 {
        assert(out =~= init);
    } else {
        assert(out.drop_last() =~= init.remove(index));
        assert(out.last() == entries.last());
        assert(init[index] == entries[index]);
        lemma_remove_other(init, index, token);
    }
}

/// The tokens of a list of entries.
pub open spec fn token_set<T>(entries: Seq<PendingEntry<T>>) -> Set<Seq<u8>> {
    Set::new(|token: Seq<u8>| find_sender(entries, token) is Some)
}

/// A list with distinct tokens has as many tokens as entries.
pub proof fn lemma_token_count<T>(entries: Seq<PendingEntry<T>>)
    requires
        distinct_tokens(entries),
    ensures
        token_set(entries).finite(),
        token_set(entries).len() == entries.len(),
    decreases entries.len(),
{
    if entries.len() == 0 {
        assert(token_set(entries) =~= Set::empty());
    } else {
        let init = entries.drop_last();
        assert forall|i: int, j: int|
            0 <= i < init.len() && 0 <= j < init.len() && i != j implies (#[trigger] init[i]).token@
            != (#[trigger] init[j]).token@ by {
            assert(init[i] == entries[i] && init[j] == entries[j]);
        }
        lemma_token_count(init);
        lemma_no_sender(init, entries.last().token@);
        assert forall|i: int| 0 <= i < init.len() implies (#[trigger] init[i]).token@
            != entries.last().token@ by {
            assert(init[i] == entries[i]);
            assert(entries[entries.len() - 1] == entries.last());
        }
        assert(token_set(entries) =~= token_set(init).insert(entries.last().token@));
    }
}

/// A request that was registered under a token that was free, and then taken
/// out again, leaves the table as it was.
pub proof fn lemma_insert_then_remove<T>(pending: Map<Seq<u8>, T>, token: Seq<u8>, sender: T)
    requires
        !pending.contains_key(token),
    ensures
        pending.insert(token, sender).remove(token) == pending,
        !pending.insert(token, sender).remove(token).contains_key(token),
{
    assert(pending.insert(token, sender).remove(token) =~= pending);
}

} // verus!
