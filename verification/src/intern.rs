//! Deduplicated strings with stable, dense, non-zero identifiers.

use vstd::prelude::*;
use vstd::string::*;

verus! {

/// The identifier of an interned string: its one-based rank among the
/// strings of the interner that issued it.
#[derive(Clone, Copy, Debug, PartialEq, Eq, Structural, PartialOrd, Ord, Hash)]
pub struct Symbol(pub u32);

impl Symbol {
    /// The numeric identifier.
    pub fn get(&self) -> (id: u32)
        ensures
            id == self.0,
    {
        self.0
    }
}

/// The strings held after `s` has been interned into `strings`.
pub open spec fn intern_strings(strings: Seq<Seq<char>>, s: Seq<char>) -> Seq<Seq<char>> {
    if strings.contains(s) {
        strings
    } else {
        strings.push(s)
    }
}

/// The identifier that interning `s` into `strings` gives.
pub open spec fn symbol_for(strings: Seq<Seq<char>>, s: Seq<char>) -> int {
    intern_strings(strings, s).index_of(s) + 1
}

/// The string that identifier `id` stands for among `strings`.
pub open spec fn resolve_in(strings: Seq<Seq<char>>, id: int) -> Option<Seq<char>> {
    if 1 <= id <= strings.len() {
        Some(strings[id - 1])
    } else {
        None
    }
}

/// Interning a string gives an identifier that resolves to that string.
pub proof fn lemma_resolve_intern(strings: Seq<Seq<char>>, s: Seq<char>)
    ensures
        resolve_in(intern_strings(strings, s), symbol_for(strings, s)) == Some(s),
        1 <= symbol_for(strings, s) <= intern_strings(strings, s).len(),
{
    let after = intern_strings(strings, s);
    if strings.contains(s) {
    } else {
        assert(after[strings.len() as int] == s);
    }
    assert(after.contains(s));
    after.index_of_first_ensures(s);
}

/// Interning the same string again gives the same identifier and adds nothing.
pub proof fn lemma_intern_idempotent(strings: Seq<Seq<char>>, s: Seq<char>)
    ensures
        symbol_for(intern_strings(strings, s), s) == symbol_for(strings, s),
        intern_strings(intern_strings(strings, s), s) == intern_strings(strings, s),
{
    lemma_resolve_intern(strings, s);
    let after = intern_strings(strings, s);
    assert(after[symbol_for(strings, s) - 1] == s);
    assert(after.contains(s));
}

/// Interning keeps every identifier issued before: what resolved, resolves
/// to the same string.
pub proof fn lemma_intern_keeps(strings: Seq<Seq<char>>, s: Seq<char>, id: int)
    requires
        1 <= id <= strings.len(),
    ensures
        resolve_in(intern_strings(strings, s), id) == resolve_in(strings, id),
{
}

/// In a sequence without duplicates, the identifier of a string is one more
/// than the index at which it stands.
pub proof fn lemma_symbol_unique(strings: Seq<Seq<char>>, i: int)
    requires
        strings.no_duplicates(),
        0 <= i < strings.len(),
    ensures
        symbol_for(strings, strings[i]) == i + 1,
{
    let s = strings[i];
    assert(strings.contains(s));
    lemma_resolve_intern(strings, s);
}

/// Interning into distinct strings leaves them distinct.
pub proof fn lemma_intern_distinct(strings: Seq<Seq<char>>, s: Seq<char>)
    requires
        strings.no_duplicates(),
    ensures
        intern_strings(strings, s).no_duplicates(),
{
}

/// A string that is held keeps its identifier when another string is
/// interned.
pub proof fn lemma_intern_stable(strings: Seq<Seq<char>>, s: Seq<char>, other: Seq<char>)
    requires
        strings.no_duplicates(),
        strings.contains(s),
    ensures
        intern_strings(strings, other).contains(s),
        symbol_for(intern_strings(strings, other), s) == symbol_for(strings, s),
{
    let next = intern_strings(strings, other);
    let i = strings.index_of(s);
    assert(next[i] == s);
    assert(next.contains(s));
    lemma_intern_distinct(strings, other);
    let j = next.index_of(s);
    assert(next[j] == s);
}

/// The strings held after each of `more` has been interned into `strings`,
/// one after the other.
pub open spec fn interned_all(strings: Seq<Seq<char>>, more: Seq<Seq<char>>) -> Seq<Seq<char>>
    decreases more.len(),
{
    if more.len() == 0 {
        strings
    } else {
        interned_all(intern_strings(strings, more[0]), more.drop_first())
    }
}

/// Identifiers are stable: a string that is held keeps its identifier, and
/// the identifier goes on to resolve to the string, however many strings
/// are interned afterwards.
pub proof fn lemma_held_stable(strings: Seq<Seq<char>>, s: Seq<char>, more: Seq<Seq<char>>)
    requires
        strings.no_duplicates(),
        strings.contains(s),
    ensures
        interned_all(strings, more).no_duplicates(),
        interned_all(strings, more).contains(s),
        symbol_for(interned_all(strings, more), s) == symbol_for(strings, s),
        resolve_in(interned_all(strings, more), symbol_for(strings, s)) == Some(s),
    decreases more.len(),
{
    if more.len() == 0 {
        lemma_resolve_intern(strings, s);
    } else {
        let next = intern_strings(strings, more[0]);
        lemma_intern_distinct(strings, more[0]);
        lemma_intern_stable(strings, s, more[0]);
        lemma_held_stable(next, s, more.drop_first());
    }
}

/// Interning a string, then any strings, then the same string again gives
/// the identifier that the first interning gave, and that identifier
/// resolves to the string throughout.
pub proof fn lemma_intern_again(strings: Seq<Seq<char>>, s: Seq<char>, more: Seq<Seq<char>>)
    requires
        strings.no_duplicates(),
    ensures
        symbol_for(interned_all(intern_strings(strings, s), more), s) == symbol_for(strings, s),
        resolve_in(interned_all(intern_strings(strings, s), more), symbol_for(strings, s)) == Some(
            s,
        ),
        intern_strings(interned_all(intern_strings(strings, s), more), s) == interned_all(
            intern_strings(strings, s),
            more,
        ),
{
    let first = intern_strings(strings, s);
    lemma_intern_distinct(strings, s);
    lemma_resolve_intern(strings, s);
    assert(first[symbol_for(strings, s) - 1] == s);
    assert(first.contains(s));
    lemma_intern_idempotent(strings, s);
    lemma_held_stable(first, s, more);
}

/// A store of strings that hands out one identifier per distinct string.
pub trait Interner {
    /// The distinct strings interned so far, in the order of their first
    /// interning.
    open spec fn strings(&self) -> Seq<Seq<char>> {
        Seq::empty()
    }

    /// The store is consistent.
    open spec fn valid(&self) -> bool {
        true
    }

    /// The identifier of `string`, which is added if it is new.
    fn intern(&mut self, string: &str) -> (symbol: Symbol)
        requires
            old(self).valid(),
            old(self).strings().contains(string@) || old(self).strings().len() < u32::MAX,
        ensures
            final(self).valid(),
            final(self).strings() == intern_strings(old(self).strings(), string@),
            symbol.0 == symbol_for(old(self).strings(), string@),
    ;

    /// The string that `symbol` stands for; `None` if this store never
    /// issued it.
    fn resolve(&self, symbol: Symbol) -> (r: Option<&str>)
        requires
            self.valid(),
        ensures
            match r {
                Some(s) => resolve_in(self.strings(), symbol.0 as int) == Some(s@),
                None => resolve_in(self.strings(), symbol.0 as int) is None,
            },
    ;
}

/// The hash map from string to identifier, kept by `hashbrown` and hashed
/// with `rustc_hash`.
#[verifier::external_body]
pub struct SymbolTable {
    inner: hashbrown::HashMap<String, u32, rustc_hash::FxBuildHasher>,
}

/// The hasher configuration of `rustc_hash`.
#[verifier::external_type_specification]
#[verifier::external_body]
pub struct ExFxBuildHasher(rustc_hash::FxBuildHasher);

/// `rustc_hash::FxBuildHasher::default`: the hasher configuration, of which
/// nothing is claimed.
#[verifier::external_body]
fn default_hasher() -> rustc_hash::FxBuildHasher {
    rustc_hash::FxBuildHasher::default()
}

/// The key-value pairs that a [`SymbolTable`] holds.
pub uninterp spec fn table_entries(table: SymbolTable) -> Map<Seq<char>, u32>;

/// `hashbrown::HashMap::with_hasher`: a map that holds nothing.
#[verifier::external_body]
fn table_new(hasher: rustc_hash::FxBuildHasher) -> (made: SymbolTable)
    ensures
        forall|key: Seq<char>| !table_entries(made).contains_key(key),
{
    SymbolTable { inner: hashbrown::HashMap::with_hasher(hasher) }
}

/// `hashbrown::HashMap::get`: the value stored under `key`, if the map
/// holds that key.
#[verifier::external_body]
fn table_get(table: &SymbolTable, key: &str) -> (r: Option<u32>)
    ensures
        r == (if table_entries(*table).contains_key(key@) {
            Some(table_entries(*table)[key@])
        } else {
            None
        }),
{
    table.inner.get(key).copied()
}

/// `hashbrown::HashMap::insert`: afterwards the map holds `id` under `key`
/// and is otherwise unchanged.
#[verifier::external_body]
fn table_insert(table: &mut SymbolTable, key: String, id: u32)
    ensures
        table_entries(*final(table)) == table_entries(*old(table)).insert(key@, id),
{
    table.inner.insert(key, id);
}

/// The map from each string of `strings` to its identifier.
pub open spec fn index_map(strings: Seq<Seq<char>>) -> Map<Seq<char>, u32> {
    Map::new(|s: Seq<char>| strings.contains(s), |s: Seq<char>| symbol_for(strings, s) as u32)
}

/// An [`Interner`] that keeps its strings for as long as it lives.
pub struct StaticInterner {
    table: SymbolTable,
    entries: Vec<String>,
}

impl StaticInterner {
    /// The contents of the string store.
    pub closed spec fn entry_strings(&self) -> Seq<Seq<char>> {
        Seq::new(self.entries@.len(), |i: int| self.entries@[i]@)
    }

    /// No string is stored twice, every identifier fits in 32 bits, and the
    /// hash map indexes exactly the stored strings.
    pub closed spec fn wf(&self) -> bool {
        &&& self.entry_strings().no_duplicates()
        &&& self.entries@.len() <= u32::MAX
        &&& table_entries(self.table) == index_map(self.entry_strings())
    }

    /// A consistent interner holds no string twice.
    pub proof fn lemma_distinct(&self)
        requires
            self.valid(),
        ensures
            self.strings().no_duplicates(),
    {
    }

    /// An interner that holds no string.
    pub fn new() -> (interner: Self)
        ensures
            interner.valid(),
            interner.strings() == Seq::<Seq<char>>::empty(),
    {
        Self::with_hasher(default_hasher())
    }

    /// An interner that holds no string and hashes with `hasher`.
    pub fn with_hasher(hasher: rustc_hash::FxBuildHasher) -> (interner: Self)
        ensures
            interner.valid(),
            interner.strings() == Seq::<Seq<char>>::empty(),
    {
        let interner = StaticInterner { table: table_new(hasher), entries: Vec::new() };
        proof {
            assert(interner.entry_strings() =~= Seq::<Seq<char>>::empty());
            assert(index_map(interner.entry_strings()) =~= table_entries(interner.table));
        }
        interner
    }

    /// The number of strings held.
    pub fn len(&self) -> (n: usize)
        ensures
            n == self.strings().len(),
    {
        self.entries.len()
    }

    /// The identifier of `string`, which is added if it is new; `None` if it
    /// is new and every identifier has been issued.
    pub fn try_intern(&mut self, string: &str) -> (r: Option<Symbol>)
        requires
            old(self).valid(),
        ensures
            final(self).valid(),
            r is Some <==> (old(self).strings().contains(string@) || old(self).strings().len()
                < u32::MAX),
            r matches Some(symbol) ==> symbol.0 == symbol_for(old(self).strings(), string@)
                && final(self).strings() == intern_strings(old(self).strings(), string@),
            r is None ==> final(self).strings() == old(self).strings(),
    {
        let ghost before = self.entry_strings();
        match table_get(&self.table, string) {
            Some(id) => Some(Symbol(id)),
            None => {
                if self.entries.len() >= u32::MAX as usize {
                    return None;
                }
                let owned = string.to_owned();
                self.entries.push(owned.clone());
                let id: u32 = self.entries.len() as u32;
                table_insert(&mut self.table, owned, id);
                proof {
                    let after = self.entry_strings();
                    assert(!before.contains(string@));
                    assert(after =~= before.push(string@));
                    assert(after.no_duplicates()) by {
                        assert forall|i: int, j: int|
                            0 <= i < after.len() && 0 <= j < after.len() && i != j implies after[i]
                            != after[j] by {
                            if i < before.len() {
                                assert(before.contains(before[i]));
                            }
                            if j < before.len() {
                                assert(before.contains(before[j]));
                            }
                        }
                    }
                    lemma_symbol_unique(after, before.len() as int);
                    assert(index_map(after) =~= index_map(before).insert(string@, id)) by {
                        assert forall|s: Seq<char>| #[trigger]
                            index_map(after).contains_key(s) implies index_map(before).insert(
                            string@,
                            id,
                        ).contains_key(s) && index_map(after)[s] == index_map(before).insert(
                            string@,
                            id,
                        )[s] by {
                            let i = choose|i: int| 0 <= i < after.len() && after[i] == s;
                            if i < before.len() {
                                assert(before[i] == s);
                                assert(before.contains(s));
                                lemma_symbol_unique(before, i);
                                lemma_symbol_unique(after, i);
                            }
                        }
                        assert forall|s: Seq<char>| #[trigger]
                            index_map(before).insert(string@, id).contains_key(
                                s,
                            ) implies index_map(after).contains_key(s) by {
                            if s != string@ {
                                let i = choose|i: int| 0 <= i < before.len() && before[i] == s;
                                assert(after[i] == s);
                            } else {
                                assert(after[before.len() as int] == s);
                            }
                        }
                    }
                }
                Some(Symbol(id))
            },
        }
    }
}

impl Interner for StaticInterner {
    open spec fn strings(&self) -> Seq<Seq<char>> {
        self.entry_strings()
    }

    open spec fn valid(&self) -> bool {
        self.wf()
    }

    fn intern(&mut self, string: &str) -> (symbol: Symbol) {
        match self.try_intern(string) {
            Some(symbol) => symbol,
            None => {
                proof {
                    assert(false);
                }
                Symbol(0)
            },
        }
    }

    fn resolve(&self, symbol: Symbol) -> (r: Option<&str>) {
        let id = symbol.0 as usize;
        if 1 <= id && id <= self.entries.len() {
            Some(self.entries[id - 1].as_str())
        } else {
            None
        }
    }
}

} // verus!
