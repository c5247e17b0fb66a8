use vstd::prelude::*;
use crate::codec::{Command, CommandSpec};

verus! {

/// The value a map gives for `k`, or the empty string when `k` is absent.
pub open spec fn lookup(m: Map<Seq<char>, Seq<char>>, k: Seq<char>) -> Seq<char> {
    if m.contains_key(k) {
        m[k]
    } else {
        Seq::empty()
    }
}

/// The response that a command produces on a store holding `m`.
pub open spec fn response(m: Map<Seq<char>, Seq<char>>, c: CommandSpec) -> Seq<char> {
    match c {
        CommandSpec::Get(k) => lookup(m, k),
        CommandSpec::Put(k, _) => lookup(m, k),
        CommandSpec::Quit => Seq::empty(),
    }
}

/// Whether the connection stays open after the command.
pub open spec fn keeps_alive(c: CommandSpec) -> bool {
    !(c is Quit)
}

/// The store's contents after the command.
pub open spec fn after(m: Map<Seq<char>, Seq<char>>, c: CommandSpec) -> Map<Seq<char>, Seq<char>> {
    match c {
        CommandSpec::Put(k, v) => m.insert(k, v),
        _ => m,
    }
}

/// The store's contents after the commands run in order, from `m`.
pub open spec fn run(m: Map<Seq<char>, Seq<char>>, cmds: Seq<CommandSpec>) -> Map<Seq<char>, Seq<char>>
    decreases cmds.len(),
{
    if cmds.len() == 0 {
        m
    } else {
        after(run(m, cmds.drop_last()), cmds.last())
    }
}

/// Whether the command writes key `k`.
pub open spec fn writes(c: CommandSpec, k: Seq<char>) -> bool {
    match c {
        CommandSpec::Put(k2, _) => k2 == k,
        _ => false,
    }
}

/// The commands of `cmds` that write key `k`, in their order.
pub open spec fn writes_of(cmds: Seq<CommandSpec>, k: Seq<char>) -> Seq<CommandSpec>
    decreases cmds.len(),
{
    if cmds.len() == 0 {
        Seq::empty()
    } else if writes(cmds.last(), k) {
        writes_of(cmds.drop_last(), k).push(cmds.last())
    } else {
        writes_of(cmds.drop_last(), k)
    }
}

/// After two writes of one key, and any commands that do not write it, a
/// read of the key gives the second value.
pub proof fn lemma_last_write_wins(
    m: Map<Seq<char>, Seq<char>>,
    k: Seq<char>,
    v1: Seq<char>,
    v2: Seq<char>,
    others: Seq<CommandSpec>,
)
    requires
        forall|i: int| 0 <= i < others.len() ==> !writes(#[trigger] others[i], k),
    ensures
        response(
            run(after(after(m, CommandSpec::Put(k, v1)), CommandSpec::Put(k, v2)), others),
            CommandSpec::Get(k),
        ) == v2,
{
    lemma_writes_of_empty(after(after(m, CommandSpec::Put(k, v1)), CommandSpec::Put(k, v2)), others, k);
}

proof fn lemma_writes_of_empty(m: Map<Seq<char>, Seq<char>>, cmds: Seq<CommandSpec>, k: Seq<char>)
    requires
        forall|i: int| 0 <= i < cmds.len() ==> !writes(#[trigger] cmds[i], k),
    ensures
        lookup(run(m, cmds), k) == lookup(m, k),
    decreases cmds.len(),
{
    if cmds.len() > 0 {
        lemma_writes_of_empty(m, cmds.drop_last(), k);
        assert(!writes(cmds[cmds.len() - 1], k));
    }
}

/// A read of a key that holds nothing gives the empty string and changes
/// nothing, so it can be repeated with the same result.
pub proof fn lemma_get_absent(m: Map<Seq<char>, Seq<char>>, k: Seq<char>)
    requires
        !m.contains_key(k),
    ensures
        response(m, CommandSpec::Get(k)) == Seq::<char>::empty(),
        after(m, CommandSpec::Get(k)) == m,
        response(after(m, CommandSpec::Get(k)), CommandSpec::Get(k)) == Seq::<char>::empty(),
{
}

/// A write returns what a read of its key would have returned just before,
/// and a read just after it returns the written value.
pub proof fn lemma_put_returns_previous(m: Map<Seq<char>, Seq<char>>, k: Seq<char>, v: Seq<char>)
    ensures
        response(m, CommandSpec::Put(k, v)) == response(m, CommandSpec::Get(k)),
        response(after(m, CommandSpec::Put(k, v)), CommandSpec::Get(k)) == v,
{
}

/// `Quit` produces an empty response, touches no key and closes the connection.
pub proof fn lemma_quit_closes(m: Map<Seq<char>, Seq<char>>)
    ensures
        response(m, CommandSpec::Quit) == Seq::<char>::empty(),
        after(m, CommandSpec::Quit) == m,
        !keeps_alive(CommandSpec::Quit),
{
}

/// However writes of one key from many connections interleave, the key ends
/// up holding one of the written values: the one written last.
pub proof fn lemma_racing_writes(m: Map<Seq<char>, Seq<char>>, k: Seq<char>, cmds: Seq<CommandSpec>)
    requires
        cmds.len() > 0,
        forall|i: int| 0 <= i < cmds.len() ==> writes(#[trigger] cmds[i], k),
    ensures
        run(m, cmds).contains_key(k),
        cmds.last() == CommandSpec::Put(k, run(m, cmds)[k]),
        exists|i: int| 0 <= i < cmds.len() && cmds[i] == CommandSpec::Put(k, run(m, cmds)[k]),
{
    assert(writes(cmds[cmds.len() - 1], k));
    assert(cmds[cmds.len() - 1] == cmds.last());
}

/// What a key holds after any interleaving of commands depends only on the
/// writes of that key, in their order: commands on other keys do not interfere.
pub proof fn lemma_keys_independent(m: Map<Seq<char>, Seq<char>>, cmds: Seq<CommandSpec>, k: Seq<char>)
    ensures
        lookup(run(m, cmds), k) == lookup(run(m, writes_of(cmds, k)), k),
    decreases cmds.len(),
{
    if cmds.len() > 0 {
        lemma_keys_independent(m, cmds.drop_last(), k);
        let w = writes_of(cmds.drop_last(), k);
        if writes(cmds.last(), k) {
            assert(writes_of(cmds, k).drop_last() =~= w);
        }
    }
}

/// A mapping from string keys to string values, each key held once.
pub struct Store {
    entries: Vec<(String, String)>,
    model: Ghost<Map<Seq<char>, Seq<char>>>,
}

impl View for Store {
    type V = Map<Seq<char>, Seq<char>>;

    closed spec fn view(&self) -> Map<Seq<char>, Seq<char>> {
        self.model@
    }
}

impl Store {
    /// Keys are unique among the entries, and the entries are exactly the map.
    pub closed spec fn wf(&self) -> bool {
        &&& forall|i: int, j: int|
            0 <= i < j < self.entries.len() ==> self.entries@[i].0@ != self.entries@[j].0@
        &&& forall|i: int|
            0 <= i < self.entries.len() ==> #[trigger] self.model@.contains_key(
                self.entries@[i].0@,
            ) && self.model@[self.entries@[i].0@] == self.entries@[i].1@
        &&& forall|k: Seq<char>|
            #[trigger] self.model@.contains_key(k) ==> exists|i: int|
                0 <= i < self.entries.len() && self.entries@[i].0@ == k
    }

    /// An empty store.
    pub fn new() -> (s: Store)
        ensures
            s.wf(),
            s@ == Map::<Seq<char>, Seq<char>>::empty(),
    {
        Store { entries: Vec::new(), model: Ghost(Map::empty()) }
    }

    /// The number of keys held.
    pub fn len(&self) -> (r: usize)
        requires
            self.wf(),
        ensures
            r == self@.len(),
    {
        proof {
            self.lemma_len();
        }
        self.entries.len()
    }

    proof fn lemma_len(&self)
        requires
            self.wf(),
        ensures
            self@.len() == self.entries.len(),
        decreases self.entries.len(),
    {
        let keys = Seq::new(self.entries.len() as nat, |i: int| self.entries@[i].0@);
        assert(keys.no_duplicates());
        keys.unique_seq_to_set();
        assert(keys.to_set() =~= self@.dom()) by {
            assert forall|k: Seq<char>| self@.dom().contains(k) implies keys.to_set().contains(k) by {
                let i = choose|i: int| 0 <= i < self.entries.len() && self.entries@[i].0@ == k;
                assert(keys[i] == k);
            }
        }
    }

    fn position(&self, k: &String) -> (r: Option<usize>)
        requires
            self.wf(),
        ensures
            match r {
                Some(i) => i < self.entries.len() && self.entries@[i as int].0@ == k@,
                None => !self@.contains_key(k@),
            },
    {
        let mut i: usize = 0;
        while i < self.entries.len()
            invariant
                self.wf(),
                0 <= i <= self.entries.len(),
                forall|j: int| 0 <= j < i ==> self.entries@[j].0@ != k@,
            decreases self.entries.len() - i,
        {
            if self.entries[i].0 == *k {
                return Some(i);
            }
            i = i + 1;
        }
        None
    }

    /// The value held for `k`, or the empty string when there is none.
    pub fn get(&self, k: &String) -> (r: String)
        requires
            self.wf(),
        ensures
            r@ == lookup(self@, k@),
    {
        match self.position(k) {
            Some(i) => self.entries[i].1.clone(),
            None => String::new(),
        }
    }

    /// Holds `v` for `k` and returns the value that `k` had before, or the
    /// empty string when it had none.
    pub fn set(&mut self, k: String, v: String) -> (r: String)
        requires
            old(self).wf(),
        ensures
            final(self).wf(),
            final(self)@ == old(self)@.insert(k@, v@),
            r@ == lookup(old(self)@, k@),
    {
        let ghost m = self@;
        let ghost kv = k@;
        let ghost vv = v@;
        match self.position(&k) {
            Some(i) => {
                let mut entry = (k, v);
                self.entries.set_and_swap(i, &mut entry);
                self.model = Ghost(m.insert(kv, vv));
                assert forall|j: int| 0 <= j < self.entries.len() implies #[trigger] self.model@.contains_key(
                    self.entries@[j].0@) && self.model@[self.entries@[j].0@] == self.entries@[j].1@ by {
                    if j != i {
                        assert(old(self).entries@[j].0@ != kv);
                    }
                }
                assert forall|k2: Seq<char>| #[trigger] self.model@.contains_key(k2) implies exists|j: int|
                    0 <= j < self.entries.len() && self.entries@[j].0@ == k2 by {
                    if k2 != kv {
                        let j = choose|j: int| 0 <= j < old(self).entries.len() && old(self).entries@[j].0@ == k2;
                        assert(self.entries@[j].0@ == k2);
                    } else {
                        assert(self.entries@[i as int].0@ == k2);
                    }
                }
                entry.1
            },
            None => {
                self.entries.push((k, v));
                self.model = Ghost(m.insert(kv, vv));
                assert forall|j: int| 0 <= j < old(self).entries.len() implies old(self).entries@[j].0@ != kv by {
                    assert(m.contains_key(old(self).entries@[j].0@));
                }
                assert forall|j: int| 0 <= j < self.entries.len() implies #[trigger] self.model@.contains_key(
                    self.entries@[j].0@) && self.model@[self.entries@[j].0@] == self.entries@[j].1@ by {
                    if j < old(self).entries.len() {
                        assert(self.entries@[j] == old(self).entries@[j]);
                    }
                }
                assert forall|k2: Seq<char>| #[trigger] self.model@.contains_key(k2) implies exists|j: int|
                    0 <= j < self.entries.len() && self.entries@[j].0@ == k2 by {
                    if k2 != kv {
                        let j = choose|j: int| 0 <= j < old(self).entries.len() && old(self).entries@[j].0@ == k2;
                        assert(self.entries@[j].0@ == k2);
                    } else {
                        assert(self.entries@[self.entries.len() - 1].0@ == k2);
                    }
                }
                String::new()
            },
        }
    }

    /// Applies one command: `Get` reads, `Put` writes and returns the value
    /// it replaced, `Quit` leaves the store alone and closes the connection.
    /// Returns the response and whether the connection stays open.
    pub fn apply(&mut self, cmd: Command) -> (r: (String, bool))
        requires
            old(self).wf(),
        ensures
            final(self).wf(),
            r.0@ == response(old(self)@, cmd@),
            r.1 == keeps_alive(cmd@),
            final(self)@ == after(old(self)@, cmd@),
    {
        match cmd {
            Command::Get(k) => (self.get(&k), true),
            Command::Put(k, v) => (self.set(k, v), true),
            Command::Quit => (String::new(), false),
        }
    }
}

} // verus!
