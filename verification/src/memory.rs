//! Scoped memory: a stack of named scopes, each a string-to-string map.
//! The bottom scope is always "global" and is never popped; lookups resolve
//! innermost first; promotion copies one scope's entries into another with
//! overwrite semantics.

use vstd::prelude::*;
use crate::strutil::{str_eq, string_eq, str_chars_eq, kv_of};
use crate::math::{resolve_math_placeholders, spec_math_subst};

verus! {

/// A string-keyed, string-valued map, stored as an association list with
/// pairwise distinct keys and abstracted as a `Map<Seq<char>, Seq<char>>`.
pub struct StrMap {
    entries: Vec<(String, String)>,
}

/// The map described by an association list, later entries winning.
pub open spec fn entries_map(s: Seq<(Seq<char>, Seq<char>)>) -> Map<Seq<char>, Seq<char>>
    decreases s.len(),
{
    if s.len() == 0 {
        Map::empty()
    } else {
        entries_map(s.drop_last()).insert(s.last().0, s.last().1)
    }
}

broadcast use crate::strutil::kv_of_len, crate::strutil::kv_of_index;

impl View for StrMap {
    type V = Map<Seq<char>, Seq<char>>;

    closed spec fn view(&self) -> Map<Seq<char>, Seq<char>> {
        entries_map(self.kv_seq())
    }
}

impl StrMap {
    /// The entries in insertion order, by their character sequences.
    pub closed spec fn kv_seq(&self) -> Seq<(Seq<char>, Seq<char>)> {
        kv_of(self.entries@)
    }

    /// Keys are pairwise distinct.
    pub closed spec fn wf(&self) -> bool {
        forall|i: int, j: int|
            0 <= i < j < self.kv_seq().len() ==> self.kv_seq()[i].0 != self.kv_seq()[j].0
    }

    pub fn new() -> (r: StrMap)
        ensures
            r.wf(),
            r@ == Map::<Seq<char>, Seq<char>>::empty(),
    {
        StrMap { entries: Vec::new() }
    }

    pub fn len(&self) -> (n: usize)
        ensures
            n == self.kv_seq().len(),
    {
        self.entries.len()
    }

    /// Write `value` under `key`, replacing any existing entry.
    pub fn insert(&mut self, key: String, value: String)
        requires
            old(self).wf(),
        ensures
            final(self).wf(),
            final(self)@ == old(self)@.insert(key@, value@),
    {
        let ghost s0 = self.kv_seq();
        let ghost e0 = self.entries@;
        let n = self.entries.len();
        let mut i: usize = 0;
        while i < n
            invariant
                n == self.kv_seq().len(),
                i <= n,
                self.wf(),
                self.entries@ == e0,
                self.kv_seq() == s0,
                s0 == old(self).kv_seq(),
                old(self).wf(),
                forall|j: int| 0 <= j < i ==> self.kv_seq()[j].0 != key@,
            decreases n - i,
        {
            if string_eq(&self.entries[i].0, &key) {
                let ghost idx = i as int;
                proof {
                    assert(s0[idx].0 == key@);
                }
                self.entries.set(i, (key, value));
                proof {
                    assert forall|j: int| 0 <= j < self.kv_seq().len() implies self.kv_seq()[j]
                        == s0.update(idx, (s0[idx].0, value@))[j] by {
                        assert(self.kv_seq()[j] == (self.entries@[j].0@, self.entries@[j].1@));
                    }
                    assert(self.kv_seq() =~= s0.update(idx, (s0[idx].0, value@)));
                    lemma_entries_map_update(s0, idx, value@);
                    assert(self.kv_seq() == s0.update(idx, (s0[idx].0, value@)));
                    assert(entries_map(self.kv_seq()) == entries_map(s0).insert(
                        s0[idx].0,
                        value@,
                    ));
                    assert(s0 == old(self).kv_seq());
                    assert(old(self)@ == entries_map(s0));
                    assert(self@ == old(self)@.insert(key@, value@));
                    assert(forall|a: int, b: int|
                        0 <= a < b < self.kv_seq().len() ==> self.kv_seq()[a].0
                            != self.kv_seq()[b].0);
                }
                return ;
            }
            i += 1;
        }
        self.entries.push((key, value));
        proof {
            assert(self.entries@.drop_last() =~= old(self).entries@);
            assert(self.kv_seq() =~= s0.push((key@, value@)));
            assert(self.kv_seq().drop_last() =~= s0);
            assert(self@ == old(self)@.insert(key@, value@));
        }
    }

    /// The value stored under `key`, if any.
    pub fn get(&self, key: &str) -> (r: Option<&String>)
        requires
            self.wf(),
        ensures
            match r {
                Some(v) => self@.dom().contains(key@) && v@ == self@[key@],
                None => !self@.dom().contains(key@),
            },
    {
        let n = self.entries.len();
        let mut i: usize = 0;
        while i < n
            invariant
                self.wf(),
                n == self.kv_seq().len(),
                i <= n,
                forall|j: int| 0 <= j < i ==> self.kv_seq()[j].0 != key@,
            decreases n - i,
        {
            if str_eq(self.entries[i].0.as_str(), key) {
                proof {
                    lemma_entries_map_index(self.kv_seq(), i as int);
                }
                return Some(&self.entries[i].1);
            }
            i += 1;
        }
        proof {
            lemma_entries_map_absent(self.kv_seq(), key@);
        }
        None
    }

    /// The value stored under the key given as characters, if any.
    pub fn get_by_chars(&self, key: &Vec<char>) -> (r: Option<&String>)
        requires
            self.wf(),
        ensures
            match r {
                Some(v) => self@.dom().contains(key@) && v@ == self@[key@],
                None => !self@.dom().contains(key@),
            },
    {
        let n = self.entries.len();
        let mut i: usize = 0;
        while i < n
            invariant
                self.wf(),
                n == self.kv_seq().len(),
                i <= n,
                forall|j: int| 0 <= j < i ==> self.kv_seq()[j].0 != key@,
            decreases n - i,
        {
            if str_chars_eq(self.entries[i].0.as_str(), key) {
                proof {
                    lemma_entries_map_index(self.kv_seq(), i as int);
                }
                return Some(&self.entries[i].1);
            }
            i += 1;
        }
        proof {
            lemma_entries_map_absent(self.kv_seq(), key@);
        }
        None
    }

    /// Whether `key` is present.
    pub fn contains_key(&self, key: &str) -> (r: bool)
        requires
            self.wf(),
        ensures
            r == self@.dom().contains(key@),
    {
        match self.get(key) {
            Some(_) => true,
            None => false,
        }
    }

    /// An identical copy.
    pub fn clone_map(&self) -> (r: StrMap)
        requires
            self.wf(),
        ensures
            r.wf(),
            r@ == self@,
            r.kv_seq() == self.kv_seq(),
    {
        let n = self.entries.len();
        let mut entries: Vec<(String, String)> = Vec::new();
        let mut i: usize = 0;
        while i < n
            invariant
                self.wf(),
                n == self.kv_seq().len(),
                i <= n,
                kv_of(entries@) =~= self.kv_seq().take(i as int),
            decreases n - i,
        {
            let k = self.entries[i].0.clone();
            let v = self.entries[i].1.clone();
            let ghost prev = entries@;
            entries.push((k, v));
            proof {
                assert(entries@.drop_last() =~= prev);
                assert(kv_of(entries@) =~= kv_of(prev).push((k@, v@)));
                assert(self.kv_seq()[i as int] == (self.entries@[i as int].0@, self.entries@[i as int].1@));
                assert(kv_of(entries@) =~= self.kv_seq().take(i + 1));
            }
            i += 1;
        }
        let r = StrMap { entries };
        proof {
            assert(r.kv_seq() =~= self.kv_seq());
        }
        r
    }

    /// Copy every entry of `self` into `target`, overwriting on collision.
    pub fn merge_into(&self, target: &mut StrMap)
        requires
            self.wf(),
            old(target).wf(),
        ensures
            final(target).wf(),
            final(target)@ == old(target)@.union_prefer_right(self@),
    {
        let n = self.entries.len();
        let mut i: usize = 0;
        while i < n
            invariant
                self.wf(),
                target.wf(),
                n == self.kv_seq().len(),
                i <= n,
                target@ == old(target)@.union_prefer_right(entries_map(self.kv_seq().take(i as int))),
            decreases n - i,
        {
            let k = self.entries[i].0.clone();
            let v = self.entries[i].1.clone();
            let ghost pre = target@;
            target.insert(k, v);
            proof {
                let s = self.kv_seq();
                assert(s.take(i + 1).drop_last() =~= s.take(i as int));
                assert(entries_map(s.take(i + 1)) == entries_map(s.take(i as int)).insert(
                    s[i as int].0,
                    s[i as int].1,
                ));
                assert(target@ =~= old(target)@.union_prefer_right(entries_map(s.take(i + 1))));
            }
            i += 1;
        }
        proof {
            assert(self.kv_seq().take(n as int) =~= self.kv_seq());
        }
    }

    /// The key at position `i`, for reflection walks.
    pub fn key_at(&self, i: usize) -> (r: &String)
        requires
            i < self.kv_seq().len(),
        ensures
            r@ == self.kv_seq()[i as int].0,
    {
        &self.entries[i].0
    }

    /// The value at position `i`, for reflection walks.
    pub fn val_at(&self, i: usize) -> (r: &String)
        requires
            i < self.kv_seq().len(),
        ensures
            r@ == self.kv_seq()[i as int].1,
    {
        &self.entries[i].1
    }
}

proof fn lemma_entries_map_update(s: Seq<(Seq<char>, Seq<char>)>, i: int, v: Seq<char>)
    requires
        0 <= i < s.len(),
        forall|a: int, b: int| 0 <= a < b < s.len() ==> s[a].0 != s[b].0,
    ensures
        entries_map(s.update(i, (s[i].0, v))) == entries_map(s).insert(s[i].0, v),
    decreases s.len(),
{
    let t = s.update(i, (s[i].0, v));
    if i == s.len() - 1 {
        assert(t.drop_last() =~= s.drop_last());
        assert(entries_map(t) =~= entries_map(s).insert(s[i].0, v));
    } else {
        assert(t.drop_last() =~= s.drop_last().update(i, (s[i].0, v)));
        assert(s.drop_last()[i] == s[i]);
        lemma_entries_map_update(s.drop_last(), i, v);
        assert(s.last().0 != s[i].0);
        assert(entries_map(t) == entries_map(s.drop_last()).insert(s[i].0, v).insert(
            s.last().0,
            s.last().1,
        ));
        assert(entries_map(s.drop_last()).insert(s[i].0, v).insert(s.last().0, s.last().1)
            =~= entries_map(s).insert(s[i].0, v));
    }
}

proof fn lemma_entries_map_index(s: Seq<(Seq<char>, Seq<char>)>, i: int)
    requires
        0 <= i < s.len(),
        forall|a: int, b: int| 0 <= a < b < s.len() ==> s[a].0 != s[b].0,
    ensures
        entries_map(s).dom().contains(s[i].0),
        entries_map(s)[s[i].0] == s[i].1,
    decreases s.len(),
{
    if i == s.len() - 1 {
    } else {
        lemma_entries_map_index(s.drop_last(), i);
        assert(s.last().0 != s[i].0);
        assert(s.drop_last()[i] == s[i]);
    }
}

proof fn lemma_entries_map_absent(s: Seq<(Seq<char>, Seq<char>)>, k: Seq<char>)
    requires
        forall|j: int| 0 <= j < s.len() ==> s[j].0 != k,
    ensures
        !entries_map(s).dom().contains(k),
    decreases s.len(),
{
    if s.len() > 0 {
        assert(forall|j: int| 0 <= j < s.drop_last().len() ==> s.drop_last()[j].0 != k);
        lemma_entries_map_absent(s.drop_last(), k);
    }
}

/// One named scope: a name and its bindings.
pub struct MemoryScope {
    pub name: String,
    pub data: StrMap,
}

/// The abstract value of a scope.
pub struct ScopeV {
    pub name: Seq<char>,
    pub data: Map<Seq<char>, Seq<char>>,
}

/// A stack of named scopes. The bottom scope is always "global" and is never
/// popped; the stack is never empty.
pub struct MemoryStore {
    stack: Vec<MemoryScope>,
    promote_on_tick: bool,
}

/// The innermost value bound to `k`, searching from the top of the stack.
pub open spec fn spec_lookup(stack: Seq<ScopeV>, k: Seq<char>) -> Option<Seq<char>>
    decreases stack.len(),
{
    if stack.len() == 0 {
        None
    } else if stack.last().data.dom().contains(k) {
        Some(stack.last().data[k])
    } else {
        spec_lookup(stack.drop_last(), k)
    }
}

/// The flat view of the whole stack: each key bound to its innermost value.
pub open spec fn spec_flat(stack: Seq<ScopeV>) -> Map<Seq<char>, Seq<char>>
    decreases stack.len(),
{
    if stack.len() == 0 {
        Map::empty()
    } else {
        spec_flat(stack.drop_last()).union_prefer_right(stack.last().data)
    }
}

/// The lowest index of a scope with the given name, or the stack length when
/// none matches: promotion by name is first-match from the bottom.
pub open spec fn find_scope(stack: Seq<ScopeV>, name: Seq<char>) -> int
    decreases stack.len(),
{
    if stack.len() == 0 {
        0
    } else if stack.first().name == name {
        0
    } else {
        1 + find_scope(stack.drop_first(), name)
    }
}

proof fn lemma_find_scope(stack: Seq<ScopeV>, name: Seq<char>)
    ensures
        0 <= find_scope(stack, name) <= stack.len(),
        find_scope(stack, name) < stack.len() ==> stack[find_scope(stack, name)].name == name,
        forall|j: int| 0 <= j < find_scope(stack, name) ==> stack[j].name != name,
    decreases stack.len(),
{
    if stack.len() > 0 && stack.first().name != name {
        lemma_find_scope(stack.drop_first(), name);
        let t = stack.drop_first();
        assert(forall|j: int| 0 <= j < t.len() ==> t[j] == stack[j + 1]);
        assert forall|j: int| 0 <= j < find_scope(stack, name) implies stack[j].name != name by {
            if j > 0 {
                assert(t[j - 1] == stack[j]);
                assert(t[j - 1].name != name);
            }
        }
        if find_scope(stack, name) < stack.len() {
            assert(t[find_scope(t, name)].name == name);
        }
    }
}

/// The scope names joined with " > ", bottom first.
pub open spec fn spec_join_names(stack: Seq<ScopeV>) -> Seq<char>
    decreases stack.len(),
{
    if stack.len() == 0 {
        Seq::empty()
    } else if stack.len() == 1 {
        stack[0].name
    } else {
        spec_join_names(stack.drop_last()).add(" > "@).add(stack.last().name)
    }
}

/// A well-formed store has at least the global scope at the bottom.
pub proof fn lemma_store_wf(m: MemoryStore)
    requires
        m.wf(),
    ensures
        m@.len() >= 1,
        m@[0].name == "global"@,
{
}

/// The stack after the whole top scope is copied into "global": the bottom
/// scope absorbs the top scope's bindings, overwrite semantics; a bare
/// global stack is unchanged.
pub open spec fn spec_promote_all(stack: Seq<ScopeV>) -> Seq<ScopeV> {
    if stack.len() >= 2 {
        stack.update(
            0,
            ScopeV { name: stack[0].name, data: stack[0].data.union_prefer_right(stack.last().data) },
        )
    } else {
        stack
    }
}

impl View for MemoryStore {
    type V = Seq<ScopeV>;

    closed spec fn view(&self) -> Seq<ScopeV> {
        Seq::new(
            self.stack@.len(),
            |i: int| ScopeV { name: self.stack@[i].name@, data: self.stack@[i].data@ },
        )
    }
}

impl MemoryStore {
    /// The stack is nonempty, its bottom scope is named "global", and every
    /// scope's bindings are well formed.
    pub closed spec fn wf(&self) -> bool {
        &&& self.stack@.len() >= 1
        &&& self.stack@[0].name@ == "global"@
        &&& forall|i: int| 0 <= i < self.stack@.len() ==> (#[trigger] self.stack@[i]).data.wf()
    }

    /// Whether scopes promote their bindings into "global" when they exit.
    pub closed spec fn spec_promote_on_tick(&self) -> bool {
        self.promote_on_tick
    }

    pub fn new() -> (r: MemoryStore)
        ensures
            r.wf(),
            r@.len() == 1,
            r@[0].name == "global"@,
            r@[0].data == Map::<Seq<char>, Seq<char>>::empty(),
            !r.spec_promote_on_tick(),
    {
        let mut stack: Vec<MemoryScope> = Vec::new();
        stack.push(MemoryScope { name: "global".to_owned(), data: StrMap::new() });
        MemoryStore { stack, promote_on_tick: false }
    }

    pub fn set_promote_on_tick(&mut self, enable: bool)
        requires
            old(self).wf(),
        ensures
            final(self).wf(),
            final(self)@ == old(self)@,
            final(self).spec_promote_on_tick() == enable,
    {
        self.promote_on_tick = enable;
        proof {
            assert(self@ =~= old(self)@);
        }
    }

    /// Push a fresh, empty scope with the given name.
    pub fn enter_scope(&mut self, name: &str)
        requires
            old(self).wf(),
        ensures
            final(self).wf(),
            final(self)@ == old(self)@.push(
                ScopeV { name: name@, data: Map::<Seq<char>, Seq<char>>::empty() },
            ),
            final(self)@.len() == old(self)@.len() + 1,
            final(self).spec_promote_on_tick() == old(self).spec_promote_on_tick(),
    {
        self.stack.push(MemoryScope { name: name.to_owned(), data: StrMap::new() });
        proof {
            assert(self@ =~= old(self)@.push(
                ScopeV { name: name@, data: Map::<Seq<char>, Seq<char>>::empty() },
            ));
        }
    }

    /// Pop the top scope unless only "global" remains. When promotion on exit
    /// is enabled, the popped scope's bindings are copied into "global" with
    /// overwrite semantics.
    pub fn exit_scope(&mut self)
        requires
            old(self).wf(),
        ensures
            final(self).wf(),
            final(self).spec_promote_on_tick() == old(self).spec_promote_on_tick(),
            old(self)@.len() == 1 ==> final(self)@ == old(self)@,
            old(self)@.len() > 1 && !old(self).spec_promote_on_tick() ==> final(self)@ == old(
                self,
            )@.drop_last(),
            old(self)@.len() > 1 && old(self).spec_promote_on_tick() ==> final(self)@ == old(
                self,
            )@.drop_last().update(
                0,
                ScopeV {
                    name: old(self)@[0].name,
                    data: old(self)@[0].data.union_prefer_right(old(self)@.last().data),
                },
            ),
            old(self)@.len() > 1 ==> final(self)@.len() == old(self)@.len() - 1,
    {
        if self.stack.len() > 1 {
            let exited = self.stack.pop().unwrap();
            if self.promote_on_tick {
                let sc = &mut self.stack[0];
                exited.data.merge_into(&mut sc.data);
                proof {
                    assert(self@ =~= old(self)@.drop_last().update(
                        0,
                        ScopeV {
                            name: old(self)@[0].name,
                            data: old(self)@[0].data.union_prefer_right(old(self)@.last().data),
                        },
                    ));
                }
            } else {
                proof {
                    assert(self@ =~= old(self)@.drop_last());
                }
            }
        } else {
            proof {
                assert(self@ =~= old(self)@);
            }
        }
    }

    /// Bind `key` to `value` in the current top scope.
    pub fn set(&mut self, key: &str, value: &str)
        requires
            old(self).wf(),
        ensures
            final(self).wf(),
            final(self)@ == old(self)@.update(
                old(self)@.len() - 1,
                ScopeV {
                    name: old(self)@.last().name,
                    data: old(self)@.last().data.insert(key@, value@),
                },
            ),
            final(self).spec_promote_on_tick() == old(self).spec_promote_on_tick(),
            final(self)@.len() == old(self)@.len(),
    {
        let n = self.stack.len();
        let sc = &mut self.stack[n - 1];
        sc.data.insert(key.to_owned(), value.to_owned());
        proof {
            assert(self@ =~= old(self)@.update(
                old(self)@.len() - 1,
                ScopeV {
                    name: old(self)@.last().name,
                    data: old(self)@.last().data.insert(key@, value@),
                },
            ));
        }
    }

    /// The innermost value bound to `key`, if any.
    pub fn get(&self, key: &str) -> (r: Option<String>)
        requires
            self.wf(),
        ensures
            match r {
                Some(v) => spec_lookup(self@, key@) == Some(v@),
                None => spec_lookup(self@, key@) is None,
            },
    {
        let n = self.stack.len();
        let mut i: usize = n;
        proof {
            assert(self@.take(n as int) =~= self@);
        }
        while i > 0
            invariant
                n == self.stack@.len(),
                i <= n,
                self.wf(),
                spec_lookup(self@, key@) == spec_lookup(self@.take(i as int), key@),
            decreases i,
        {
            let ghost pre = self@.take(i as int);
            i -= 1;
            match self.stack[i].data.get(key) {
                Some(v) => {
                    proof {
                        assert(pre.last() == self@[i as int]);
                    }
                    return Some(v.clone());
                },
                None => {
                    proof {
                        assert(pre.last() == self@[i as int]);
                        assert(pre.drop_last() =~= self@.take(i as int));
                    }
                },
            }
        }
        proof {
            assert(self@.take(0) =~= Seq::<ScopeV>::empty());
        }
        None
    }

    /// The flat view of the stack, innermost bindings winning.
    pub fn flatten_scoped(&self) -> (r: StrMap)
        requires
            self.wf(),
        ensures
            r.wf(),
            r@ == spec_flat(self@),
    {
        let mut acc = StrMap::new();
        let n = self.stack.len();
        let mut i: usize = 0;
        proof {
            assert(self@.take(0) =~= Seq::<ScopeV>::empty());
        }
        while i < n
            invariant
                n == self.stack@.len(),
                i <= n,
                self.wf(),
                acc.wf(),
                acc@ == spec_flat(self@.take(i as int)),
            decreases n - i,
        {
            self.stack[i].data.merge_into(&mut acc);
            proof {
                assert(self@.take(i + 1).drop_last() =~= self@.take(i as int));
                assert(self@.take(i + 1).last() == self@[i as int]);
            }
            i += 1;
        }
        proof {
            assert(self@.take(n as int) =~= self@);
        }
        acc
    }

    /// The same flat view under its other public name; both entry points
    /// resolve each key to its innermost value.
    pub fn flatten_map(&self) -> (r: StrMap)
        requires
            self.wf(),
        ensures
            r.wf(),
            r@ == spec_flat(self@),
    {
        self.flatten_scoped()
    }

    /// Resolve every `{{expr}}` in `input` against the flat view.
    pub fn resolve_placeholders(&self, input: &str) -> (r: String)
        requires
            self.wf(),
        ensures
            r@ == spec_math_subst(input@, 0, spec_flat(self@)),
    {
        let memory = self.flatten_scoped();
        resolve_math_placeholders(input, &memory)
    }

    /// Copy the whole top scope into "global" unconditionally.
    pub fn promote_all(&mut self)
        requires
            old(self).wf(),
        ensures
            final(self).wf(),
            final(self).spec_promote_on_tick() == old(self).spec_promote_on_tick(),
            old(self)@.len() < 2 ==> final(self)@ == old(self)@,
            old(self)@.len() >= 2 ==> final(self)@ == old(self)@.update(
                0,
                ScopeV {
                    name: old(self)@[0].name,
                    data: old(self)@[0].data.union_prefer_right(old(self)@.last().data),
                },
            ),
            final(self)@ == spec_promote_all(old(self)@),
            final(self)@.len() == old(self)@.len(),
    {
        let n = self.stack.len();
        if n >= 2 {
            let top = self.stack[n - 1].data.clone_map();
            let sc = &mut self.stack[0];
            top.merge_into(&mut sc.data);
            proof {
                assert(self@ =~= old(self)@.update(
                    0,
                    ScopeV {
                        name: old(self)@[0].name,
                        data: old(self)@[0].data.union_prefer_right(old(self)@.last().data),
                    },
                ));
            }
        } else {
            proof {
                assert(self@ =~= old(self)@);
            }
        }
    }

    /// Copy all bindings of the first scope named `from` into the first scope
    /// named `to`, overwriting on collision. Nothing happens when either name
    /// is absent; the result says whether promotion took place.
    pub fn promote_scope(&mut self, from: &str, to: &str) -> (r: bool)
        requires
            old(self).wf(),
        ensures
            final(self).wf(),
            final(self).spec_promote_on_tick() == old(self).spec_promote_on_tick(),
            r == (find_scope(old(self)@, from@) < old(self)@.len() && find_scope(
                old(self)@,
                to@,
            ) < old(self)@.len()),
            !r ==> final(self)@ == old(self)@,
            r ==> final(self)@ == old(self)@.update(
                find_scope(old(self)@, to@),
                ScopeV {
                    name: to@,
                    data: old(self)@[find_scope(old(self)@, to@)].data.union_prefer_right(
                        old(self)@[find_scope(old(self)@, from@)].data,
                    ),
                },
            ),
            final(self)@.len() == old(self)@.len(),
    {
        let from_idx = match self.find_scope_index(from) {
            Some(i) => i,
            None => {
                proof {
                    lemma_find_scope(self@, from@);
                }
                return false;
            },
        };
        let to_idx = match self.find_scope_index(to) {
            Some(i) => i,
            None => {
                proof {
                    lemma_find_scope(self@, to@);
                }
                return false;
            },
        };
        let src = self.stack[from_idx].data.clone_map();
        let sc = &mut self.stack[to_idx];
        src.merge_into(&mut sc.data);
        proof {
            lemma_find_scope(old(self)@, from@);
            lemma_find_scope(old(self)@, to@);
            assert(self@ =~= old(self)@.update(
                to_idx as int,
                ScopeV {
                    name: to@,
                    data: old(self)@[to_idx as int].data.union_prefer_right(
                        old(self)@[from_idx as int].data,
                    ),
                },
            ));
        }
        true
    }

    /// The lowest index of a scope with the given name.
    fn find_scope_index(&self, name: &str) -> (r: Option<usize>)
        requires
            self.wf(),
        ensures
            match r {
                Some(i) => i as int == find_scope(self@, name@) && i < self@.len()
                    && self@[i as int].name == name@,
                None => find_scope(self@, name@) == self@.len(),
            },
    {
        let n = self.stack.len();
        let mut i: usize = 0;
        while i < n
            invariant
                n == self.stack@.len(),
                i <= n,
                self.wf(),
                forall|j: int| 0 <= j < i ==> self@[j].name != name@,
            decreases n - i,
        {
            if str_eq(self.stack[i].name.as_str(), name) {
                proof {
                    lemma_find_scope(self@, name@);
                    assert(find_scope(self@, name@) <= i as int) by {
                        if find_scope(self@, name@) > i as int {
                            assert(self@[i as int].name != name@);
                        }
                    }
                    assert(find_scope(self@, name@) >= i as int) by {
                        if find_scope(self@, name@) < i as int {
                            assert(self@[find_scope(self@, name@)].name != name@);
                        }
                    }
                }
                return Some(i);
            }
            i += 1;
        }
        proof {
            lemma_find_scope(self@, name@);
            if find_scope(self@, name@) < self@.len() {
                assert(self@[find_scope(self@, name@)].name == name@);
            }
        }
        None
    }

    /// Promote the top scope into "global" exactly when `condition` accepts
    /// the top scope's bindings: the condition is applied to the top scope's
    /// map, and the store is promoted on a positive verdict and untouched on
    /// a negative one.
    pub fn promote_if<F: FnOnce(&StrMap) -> bool>(&mut self, condition: F)
        requires
            old(self).wf(),
            forall|m: &StrMap| #[trigger] condition.requires((m,)),
        ensures
            final(self).wf(),
            final(self).spec_promote_on_tick() == old(self).spec_promote_on_tick(),
            final(self)@.len() == old(self)@.len(),
            exists|m: StrMap, r: bool|
                {
                    &&& m.wf()
                    &&& m@ == old(self)@.last().data
                    &&& #[trigger] condition.ensures((&m,), r)
                    &&& final(self)@ == (if r {
                        spec_promote_all(old(self)@)
                    } else {
                        old(self)@
                    })
                },
    {
        let n = self.stack.len();
        let top = &self.stack[n - 1];
        let ghost m = self.stack@[n - 1].data;
        let verdict = condition(&top.data);
        if verdict {
            self.promote_all();
        } else {
            proof {
                assert(self@ =~= old(self)@);
            }
        }
        proof {
            assert(m@ == old(self)@.last().data);
            assert(condition.ensures((&m,), verdict));
        }
    }

    /// The scope names, bottom first.
    pub fn current_scope_chain(&self) -> (r: Vec<String>)
        requires
            self.wf(),
        ensures
            r@.len() == self@.len(),
            forall|i: int| 0 <= i < r@.len() ==> (#[trigger] r@[i])@ == self@[i].name,
    {
        let n = self.stack.len();
        let mut r: Vec<String> = Vec::new();
        let mut i: usize = 0;
        while i < n
            invariant
                n == self.stack@.len(),
                i <= n,
                self.wf(),
                r@.len() == i,
                forall|j: int| 0 <= j < i ==> (#[trigger] r@[j])@ == self@[j].name,
            decreases n - i,
        {
            r.push(self.stack[i].name.clone());
            i += 1;
        }
        r
    }

    /// The scope names joined with " > ", bottom first.
    pub fn format_scope_chain(&self) -> (r: String)
        requires
            self.wf(),
        ensures
            r@ == spec_join_names(self@),
    {
        let n = self.stack.len();
        let mut r = String::new();
        let mut i: usize = 0;
        while i < n
            invariant
                n == self.stack@.len(),
                i <= n,
                self.wf(),
                r@ == spec_join_names(self@.take(i as int)),
            decreases n - i,
        {
            let ghost pre = self@.take(i as int);
            if i > 0 {
                r.append(" > ");
            }
            r.append(self.stack[i].name.as_str());
            proof {
                assert(self@.take(i + 1).drop_last() =~= pre);
                assert(self@.take(i + 1).last() == self@[i as int]);
                if i == 0 {
                    assert(spec_join_names(self@.take(1)) == self@[0].name);
                }
            }
            i += 1;
        }
        proof {
            assert(self@.take(n as int) =~= self@);
        }
        r
    }

    /// A copy of the top scope's bindings.
    pub fn get_local_map(&self) -> (r: StrMap)
        requires
            self.wf(),
        ensures
            r.wf(),
            r@ == self@.last().data,
    {
        let n = self.stack.len();
        self.stack[n - 1].data.clone_map()
    }

    /// Copies of every scope's name and bindings, bottom first.
    pub fn get_all_scopes(&self) -> (r: Vec<(String, StrMap)>)
        requires
            self.wf(),
        ensures
            r@.len() == self@.len(),
            forall|i: int|
                0 <= i < r@.len() ==> (#[trigger] r@[i]).0@ == self@[i].name && r@[i].1@
                    == self@[i].data && r@[i].1.wf(),
    {
        let n = self.stack.len();
        let mut r: Vec<(String, StrMap)> = Vec::new();
        let mut i: usize = 0;
        while i < n
            invariant
                n == self.stack@.len(),
                i <= n,
                self.wf(),
                r@.len() == i,
                forall|j: int|
                    0 <= j < i ==> (#[trigger] r@[j]).0@ == self@[j].name && r@[j].1@
                        == self@[j].data && r@[j].1.wf(),
            decreases n - i,
        {
            let name = self.stack[i].name.clone();
            let data = self.stack[i].data.clone_map();
            r.push((name, data));
            i += 1;
        }
        r
    }

    /// The top scope.
    pub fn top_scope(&self) -> (r: Option<&MemoryScope>)
        requires
            self.wf(),
        ensures
            match r {
                Some(sc) => sc.name@ == self@.last().name && sc.data@ == self@.last().data
                    && sc.data.wf(),
                None => false,
            },
    {
        let n = self.stack.len();
        Some(&self.stack[n - 1])
    }

    /// Same as `get_all_scopes`, under its other public name.
    pub fn all_scopes(&self) -> (r: Vec<(String, StrMap)>)
        requires
            self.wf(),
        ensures
            r@.len() == self@.len(),
            forall|i: int|
                0 <= i < r@.len() ==> (#[trigger] r@[i]).0@ == self@[i].name && r@[i].1@
                    == self@[i].data && r@[i].1.wf(),
    {
        self.get_all_scopes()
    }

    /// Bind `key` directly in the top scope ("local", the default) or the
    /// bottom scope ("global"); any other target leaves the store unchanged.
    pub fn set_target(&mut self, key: &str, value: &str, target_scope: Option<&str>)
        requires
            old(self).wf(),
        ensures
            final(self).wf(),
            final(self).spec_promote_on_tick() == old(self).spec_promote_on_tick(),
            ({
                let tgt = match target_scope {
                    None => Some(old(self)@.len() - 1),
                    Some(t) => if t@ == "local"@ {
                        Some(old(self)@.len() - 1)
                    } else if t@ == "global"@ {
                        Some(0int)
                    } else {
                        None
                    },
                };
                match tgt {
                    Some(idx) => final(self)@ == old(self)@.update(
                        idx,
                        ScopeV {
                            name: old(self)@[idx].name,
                            data: old(self)@[idx].data.insert(key@, value@),
                        },
                    ),
                    None => final(self)@ == old(self)@,
                }
            }),
            final(self)@.len() == old(self)@.len(),
    {
        let n = self.stack.len();
        let idx: Option<usize> = match target_scope {
            None => Some(n - 1),
            Some(t) => {
                if str_eq(t, "local") {
                    Some(n - 1)
                } else if str_eq(t, "global") {
                    Some(0)
                } else {
                    None
                }
            },
        };
        match idx {
            Some(i) => {
                let sc = &mut self.stack[i];
                sc.data.insert(key.to_owned(), value.to_owned());
                proof {
                    assert(self@ =~= old(self)@.update(
                        i as int,
                        ScopeV {
                            name: old(self)@[i as int].name,
                            data: old(self)@[i as int].data.insert(key@, value@),
                        },
                    ));
                }
            },
            None => {
                proof {
                    assert(self@ =~= old(self)@);
                }
            },
        }
    }

    /// Whether the top scope binds `key`.
    pub fn scope_contains(&self, key: &str) -> (r: bool)
        requires
            self.wf(),
        ensures
            r == self@.last().data.dom().contains(key@),
    {
        let n = self.stack.len();
        self.stack[n - 1].data.contains_key(key)
    }
}


/// When every scope above "global" lacks `k` and the bottom scope binds it,
/// lookup resolves `k` from the bottom.
proof fn lemma_lookup_reaches_bottom(stack: Seq<ScopeV>, k: Seq<char>)
    requires
        stack.len() >= 1,
        stack[0].data.dom().contains(k),
        forall|i: int| 1 <= i < stack.len() ==> !(#[trigger] stack[i]).data.dom().contains(k),
    ensures
        spec_lookup(stack, k) == Some(stack[0].data[k]),
    decreases stack.len(),
{
    if stack.len() == 1 {
    } else {
        assert(!stack.last().data.dom().contains(k));
        let t = stack.drop_last();
        assert(t[0] == stack[0]);
        assert(forall|i: int| 1 <= i < t.len() ==> !(#[trigger] t[i]).data.dom().contains(k));
        lemma_lookup_reaches_bottom(t, k);
    }
}

/// Leaving a scope under the promotion flag makes its bindings durable: for
/// any store whose top scope binds `k` and whose other non-global scopes do
/// not, the stack left by a promoting exit resolves `k` to the exited
/// scope's value, from "global".
pub proof fn lemma_exit_scope_promotes_binding(stack: Seq<ScopeV>, k: Seq<char>)
    requires
        stack.len() >= 2,
        stack.last().data.dom().contains(k),
        forall|i: int| 1 <= i < stack.len() - 1 ==> !(#[trigger] stack[i]).data.dom().contains(k),
    ensures
        spec_lookup(
            stack.drop_last().update(
                0,
                ScopeV {
                    name: stack[0].name,
                    data: stack[0].data.union_prefer_right(stack.last().data),
                },
            ),
            k,
        ) == Some(stack.last().data[k]),
{
    let merged = stack[0].data.union_prefer_right(stack.last().data);
    assert(merged.dom().contains(k));
    assert(merged[k] == stack.last().data[k]);
    let r = stack.drop_last().update(0, ScopeV { name: stack[0].name, data: merged });
    assert(r[0].data == merged);
    assert(forall|i: int| 1 <= i < r.len() ==> r[i] == stack[i]);
    lemma_lookup_reaches_bottom(r, k);
}

/// Leaving a scope without the flag discards its bindings: a key only the
/// exited scope held is absent afterwards.
pub proof fn lemma_exit_scope_discards_binding(stack: Seq<ScopeV>, k: Seq<char>)
    requires
        stack.len() >= 2,
        forall|i: int| 0 <= i < stack.len() - 1 ==> !(#[trigger] stack[i]).data.dom().contains(k),
    ensures
        spec_lookup(stack.drop_last(), k) is None,
{
    lemma_lookup_absent(stack.drop_last(), k);
}

proof fn lemma_lookup_absent(stack: Seq<ScopeV>, k: Seq<char>)
    requires
        forall|i: int| 0 <= i < stack.len() ==> !(#[trigger] stack[i]).data.dom().contains(k),
    ensures
        spec_lookup(stack, k) is None,
    decreases stack.len(),
{
    if stack.len() > 0 {
        lemma_lookup_absent(stack.drop_last(), k);
    }
}

} // verus!
