//! The parsed document: a mapping from section names to sections, each a
//! mapping from key names to optional values.

use vstd::prelude::*;

verus! {

/// What a section holds: for each key its value, if it has one.
pub type SectionModel = Map<Seq<char>, Option<Seq<char>>>;

/// What a document holds: for each section name its section.
pub type DocumentModel = Map<Seq<char>, SectionModel>;

/// The name of the section that holds the keys met before any header.
pub open spec fn default_name() -> Seq<char> {
    "default"@
}

/// The characters of an optional string.
pub open spec fn value_model(v: Option<String>) -> Option<Seq<char>> {
    match v {
        Some(s) => Some(s@),
        None => None,
    }
}

/// Whether `names` lists the members of `domain`, each exactly once.
pub open spec fn lists(names: Seq<String>, domain: Set<Seq<char>>) -> bool {
    &&& forall|n: Seq<char>|
        domain.contains(n) <==> exists|i: int| 0 <= i < names.len() && #[trigger] names[i]@ == n
    &&& forall|i: int, j: int| 0 <= i < j < names.len() ==> names[i]@ != names[j]@
}

#[derive(Debug)]
struct Entry {
    key: String,
    value: Option<String>,
}

#[derive(Debug)]
struct Section {
    name: String,
    entries: Vec<Entry>,
}

/// A document. The default section is always present, and no section name
/// and no key of a section is stored twice.
#[derive(Debug)]
pub struct Document {
    sections: Vec<Section>,
}

spec fn keys_of(es: Seq<Entry>) -> Seq<Seq<char>> {
    Seq::new(es.len(), |i: int| es[i].key@)
}

spec fn names_of(ss: Seq<Section>) -> Seq<Seq<char>> {
    Seq::new(ss.len(), |i: int| ss[i].name@)
}

spec fn table(es: Seq<Entry>) -> SectionModel {
    Map::new(
        |k: Seq<char>| keys_of(es).contains(k),
        |k: Seq<char>| value_model(es[keys_of(es).index_of(k)].value),
    )
}

spec fn tables(ss: Seq<Section>) -> DocumentModel {
    Map::new(
        |n: Seq<char>| names_of(ss).contains(n),
        |n: Seq<char>| table(ss[names_of(ss).index_of(n)].entries@),
    )
}

proof fn lemma_position(names: Seq<Seq<char>>, i: int)
    requires
        names.no_duplicates(),
        0 <= i < names.len(),
    ensures
        names.contains(names[i]),
        names.index_of(names[i]) == i,
{
    assert(names.contains(names[i]));
    let j = names.index_of(names[i]);
    assert(0 <= j < names.len() && names[j] == names[i]);
}

proof fn lemma_table_overwrite(es: Seq<Entry>, j: int, e: Entry)
    requires
        keys_of(es).no_duplicates(),
        0 <= j < es.len(),
        es[j].key@ == e.key@,
    ensures
        keys_of(es.update(j, e)) == keys_of(es),
        table(es.update(j, e)) == table(es).insert(e.key@, value_model(e.value)),
{
    let es2 = es.update(j, e);
    assert(keys_of(es2) =~= keys_of(es));
    lemma_position(keys_of(es), j);
    assert forall|k: Seq<char>| keys_of(es).contains(k) implies #[trigger] table(es2)[k] == table(
        es,
    ).insert(e.key@, value_model(e.value))[k] by {
        let p = keys_of(es).index_of(k);
        assert(0 <= p < es.len() && keys_of(es)[p] == k);
    }
    assert(table(es2) =~= table(es).insert(e.key@, value_model(e.value)));
}

proof fn lemma_table_push(es: Seq<Entry>, e: Entry)
    requires
        keys_of(es).no_duplicates(),
        !keys_of(es).contains(e.key@),
    ensures
        keys_of(es.push(e)) == keys_of(es).push(e.key@),
        keys_of(es.push(e)).no_duplicates(),
        table(es.push(e)) == table(es).insert(e.key@, value_model(e.value)),
{
    let es2 = es.push(e);
    assert(keys_of(es2) =~= keys_of(es).push(e.key@));
    assert(keys_of(es2).no_duplicates());
    assert forall|k: Seq<char>| keys_of(es2).contains(k) implies #[trigger] table(es2)[k] == table(
        es,
    ).insert(e.key@, value_model(e.value))[k] && (k == e.key@ || keys_of(es).contains(k)) by {
        let p = keys_of(es2).index_of(k);
        assert(0 <= p < es2.len() && keys_of(es2)[p] == k);
        if p < es.len() {
            assert(keys_of(es)[p] == k);
            lemma_position(keys_of(es), p);
        }
    }
    assert forall|k: Seq<char>| k == e.key@ || keys_of(es).contains(k) implies keys_of(
        es2,
    ).contains(k) by {
        if k == e.key@ {
            assert(keys_of(es2)[es.len() as int] == k);
        } else {
            let p = keys_of(es).index_of(k);
            assert(keys_of(es2)[p] == k);
        }
    }
    assert(table(es2) =~= table(es).insert(e.key@, value_model(e.value)));
}

proof fn lemma_tables_overwrite(ss: Seq<Section>, i: int, s: Section)
    requires
        names_of(ss).no_duplicates(),
        0 <= i < ss.len(),
        ss[i].name@ == s.name@,
    ensures
        names_of(ss.update(i, s)) == names_of(ss),
        tables(ss).contains_key(s.name@),
        tables(ss)[s.name@] == table(ss[i].entries@),
        tables(ss.update(i, s)) == tables(ss).insert(s.name@, table(s.entries@)),
{
    let ss2 = ss.update(i, s);
    assert(names_of(ss2) =~= names_of(ss));
    lemma_position(names_of(ss), i);
    assert forall|n: Seq<char>| names_of(ss).contains(n) implies #[trigger] tables(ss2)[n]
        == tables(ss).insert(s.name@, table(s.entries@))[n] by {
        let p = names_of(ss).index_of(n);
        assert(0 <= p < ss.len() && names_of(ss)[p] == n);
    }
    assert(tables(ss2) =~= tables(ss).insert(s.name@, table(s.entries@)));
}

proof fn lemma_tables_push(ss: Seq<Section>, s: Section)
    requires
        names_of(ss).no_duplicates(),
        !names_of(ss).contains(s.name@),
    ensures
        names_of(ss.push(s)) == names_of(ss).push(s.name@),
        names_of(ss.push(s)).no_duplicates(),
        tables(ss.push(s)) == tables(ss).insert(s.name@, table(s.entries@)),
{
    let ss2 = ss.push(s);
    assert(names_of(ss2) =~= names_of(ss).push(s.name@));
    assert(names_of(ss2).no_duplicates());
    assert forall|n: Seq<char>| names_of(ss2).contains(n) implies #[trigger] tables(ss2)[n]
        == tables(ss).insert(s.name@, table(s.entries@))[n] && (n == s.name@ || names_of(
        ss,
    ).contains(n)) by {
        let p = names_of(ss2).index_of(n);
        assert(0 <= p < ss2.len() && names_of(ss2)[p] == n);
        if p < ss.len() {
            assert(names_of(ss)[p] == n);
            lemma_position(names_of(ss), p);
        }
    }
    assert forall|n: Seq<char>| n == s.name@ || names_of(ss).contains(n) implies names_of(
        ss2,
    ).contains(n) by {
        if n == s.name@ {
            assert(names_of(ss2)[ss.len() as int] == n);
        } else {
            let p = names_of(ss).index_of(n);
            assert(names_of(ss2)[p] == n);
        }
    }
    assert(tables(ss2) =~= tables(ss).insert(s.name@, table(s.entries@)));
}

fn find_key(es: &Vec<Entry>, key: &String) -> (r: Option<usize>)
    ensures
        match r {
            Some(i) => i < es.len() && es[i as int].key@ == key@,
            None => !keys_of(es@).contains(key@),
        },
{
    let mut i: usize = 0;
    while i < es.len()
        invariant
            i <= es.len(),
            forall|j: int| 0 <= j < i ==> keys_of(es@)[j] != key@,
        decreases es.len() - i,
    {
        if es[i].key == *key {
            return Some(i);
        }
        assert(keys_of(es@)[i as int] == es[i as int].key@);
        i += 1;
    }
    None
}

fn find_name(ss: &Vec<Section>, name: &String) -> (r: Option<usize>)
    ensures
        match r {
            Some(i) => i < ss.len() && ss[i as int].name@ == name@,
            None => !names_of(ss@).contains(name@),
        },
{
    let mut i: usize = 0;
    while i < ss.len()
        invariant
            i <= ss.len(),
            forall|j: int| 0 <= j < i ==> names_of(ss@)[j] != name@,
        decreases ss.len() - i,
    {
        if ss[i].name == *name {
            return Some(i);
        }
        assert(names_of(ss@)[i as int] == ss[i as int].name@);
        i += 1;
    }
    None
}

fn same_value(a: &Option<String>, b: &Option<String>) -> (r: bool)
    ensures
        r == (value_model(*a) == value_model(*b)),
{
    match (a, b) {
        (Some(x), Some(y)) => *x == *y,
        (None, None) => true,
        _ => false,
    }
}

/// Whether every entry of `part` is an entry of `whole`.
fn entries_within(part: &Vec<Entry>, whole: &Vec<Entry>) -> (r: bool)
    requires
        keys_of(part@).no_duplicates(),
        keys_of(whole@).no_duplicates(),
    ensures
        r == table(part@).submap_of(table(whole@)),
{
    let mut i: usize = 0;
    while i < part.len()
        invariant
            i <= part.len(),
            keys_of(part@).no_duplicates(),
            keys_of(whole@).no_duplicates(),
            forall|j: int|
                0 <= j < i ==> table(whole@).contains_key(#[trigger] keys_of(part@)[j]) && table(
                    whole@,
                )[keys_of(part@)[j]] == value_model(part[j].value),
        decreases part.len() - i,
    {
        proof {
            lemma_position(keys_of(part@), i as int);
        }
        let ghost k = part[i as int].key@;
        assert(keys_of(part@)[i as int] == k);
        assert(table(part@).contains_key(k) && table(part@)[k] == value_model(part[i as int].value));
        match find_key(whole, &part[i].key) {
            Some(j) => {
                proof {
                    lemma_position(keys_of(whole@), j as int);
                }
                assert(keys_of(whole@)[j as int] == k);
                assert(table(whole@)[k] == value_model(whole[j as int].value));
                if !same_value(&part[i].value, &whole[j].value) {
                    assert(!table(part@).submap_of(table(whole@))) by {
                        assert(table(part@).dom().contains(k));
                        assert(table(whole@).dom().contains(k));
                    }
                    return false;
                }
            },
            None => {
                assert(!table(part@).submap_of(table(whole@))) by {
                    assert(table(part@).dom().contains(k));
                    assert(!table(whole@).dom().contains(k));
                }
                return false;
            },
        }
        i += 1;
    }
    proof {
        assert forall|k: Seq<char>| table(part@).contains_key(k) implies #[trigger] table(
            whole@,
        ).contains_key(k) && table(part@)[k] == table(whole@)[k] by {
            let p = keys_of(part@).index_of(k);
            assert(keys_of(part@)[p] == k);
        }
    }
    true
}

proof fn lemma_tables_agree(a: Seq<Section>, b: Seq<Section>)
    requires
        a.len() == b.len(),
        forall|i: int| 0 <= i < a.len() ==> (#[trigger] a[i]).name@ == b[i].name@,
        forall|i: int| 0 <= i < a.len() ==> (#[trigger] a[i]).entries@ == b[i].entries@,
    ensures
        names_of(a) == names_of(b),
        tables(a) == tables(b),
{
    assert(names_of(a) =~= names_of(b));
    assert(tables(a) =~= tables(b));
}

fn copy_entries(es: &Vec<Entry>) -> (r: Vec<Entry>)
    ensures
        r@ == es@,
{
    let mut r: Vec<Entry> = Vec::new();
    let mut i: usize = 0;
    while i < es.len()
        invariant
            i <= es.len(),
            r@ == es@.subrange(0, i as int),
        decreases es.len() - i,
    {
        let value = match &es[i].value {
            Some(v) => Some(v.clone()),
            None => None,
        };
        r.push(Entry { key: es[i].key.clone(), value });
        i += 1;
        assert(r@ =~= es@.subrange(0, i as int));
    }
    assert(es@.subrange(0, es.len() as int) =~= es@);
    r
}

impl Clone for Document {
    /// A document of its own that stands for the same mapping.
    fn clone(&self) -> (r: Self)
        ensures
            r@ == self@,
            self.wf() ==> r.wf(),
    {
        let mut sections: Vec<Section> = Vec::new();
        let mut i: usize = 0;
        while i < self.sections.len()
            invariant
                i <= self.sections.len(),
                sections.len() == i,
                forall|j: int| 0 <= j < i ==> (#[trigger] sections[j]).name@ == self.sections[j].name@,
                forall|j: int|
                    0 <= j < i ==> (#[trigger] sections[j]).entries@ == self.sections[j].entries@,
            decreases self.sections.len() - i,
        {
            let entries = copy_entries(&self.sections[i].entries);
            sections.push(Section { name: self.sections[i].name.clone(), entries });
            i += 1;
        }
        proof {
            lemma_tables_agree(sections@, self.sections@);
        }
        Document { sections }
    }
}

impl Document {
    /// The representation is sound: the default section comes first, and no
    /// section name and no key of a section occurs twice.
    pub closed spec fn wf(&self) -> bool {
        &&& self.sections.len() > 0
        &&& self.sections[0].name@ == default_name()
        &&& names_of(self.sections@).no_duplicates()
        &&& forall|i: int|
            0 <= i < self.sections.len() ==> keys_of(
                #[trigger] self.sections[i].entries@,
            ).no_duplicates()
    }

    /// The mapping that the document stands for.
    pub closed spec fn view(&self) -> DocumentModel {
        tables(self.sections@)
    }

    /// How many sections are stored.
    pub closed spec fn count(&self) -> nat {
        self.sections.len() as nat
    }

    /// The name of the section stored at position `i`.
    pub closed spec fn name_at(&self, i: int) -> Seq<char> {
        self.sections[i].name@
    }

    /// A sound document always holds the default section, and each stored
    /// position names a section of it.
    pub proof fn lemma_wf(&self)
        requires
            self.wf(),
        ensures
            self@.contains_key(default_name()),
            self.count() > 0,
            self.name_at(0) == default_name(),
            forall|i: int| 0 <= i < self.count() ==> self@.contains_key(#[trigger] self.name_at(i)),
    {
        assert forall|i: int| 0 <= i < self.count() implies self@.contains_key(
            #[trigger] self.name_at(i),
        ) by {
            lemma_position(names_of(self.sections@), i);
        }
        assert(self@.contains_key(self.name_at(0)));
    }

    /// A document that holds the default section, empty, and nothing else.
    pub fn new() -> (d: Document)
        ensures
            d.wf(),
            d.count() == 1,
            d.name_at(0) == default_name(),
            d@ == Map::<Seq<char>, SectionModel>::empty().insert(
                default_name(),
                Map::<Seq<char>, Option<Seq<char>>>::empty(),
            ),
    {
        let first = Section { name: "default".to_owned(), entries: Vec::new() };
        let mut sections: Vec<Section> = Vec::new();
        proof {
            assert(names_of(sections@) =~= Seq::<Seq<char>>::empty());
            assert(tables(sections@) =~= Map::<Seq<char>, SectionModel>::empty());
            lemma_tables_push(sections@, first);
            assert(table(first.entries@) =~= Map::<Seq<char>, Option<Seq<char>>>::empty());
        }
        sections.push(first);
        Document { sections }
    }

    /// Makes `name` a section of the document, empty unless it is already
    /// there, and returns the position at which it is stored.
    pub(crate) fn open_section(&mut self, name: String) -> (i: usize)
        requires
            old(self).wf(),
        ensures
            final(self).wf(),
            i < final(self).count(),
            final(self).name_at(i as int) == name@,
            final(self)@ == if old(self)@.contains_key(name@) {
                old(self)@
            } else {
                old(self)@.insert(name@, Map::<Seq<char>, Option<Seq<char>>>::empty())
            },
    {
        match find_name(&self.sections, &name) {
            Some(i) => {
                proof {
                    lemma_position(names_of(self.sections@), i as int);
                }
                i
            },
            None => {
                let i: usize = self.sections.len();
                let fresh = Section { name, entries: Vec::new() };
                proof {
                    lemma_tables_push(self.sections@, fresh);
                    assert(table(fresh.entries@) =~= Map::<Seq<char>, Option<Seq<char>>>::empty());
                    assert(keys_of(fresh.entries@) =~= Seq::<Seq<char>>::empty());
                }
                self.sections.push(fresh);
                i
            },
        }
    }

    /// Gives `key` the value `value` in the section stored at position `i`,
    /// in place of what it had there.
    pub(crate) fn put_at(&mut self, i: usize, key: String, value: Option<String>)
        requires
            old(self).wf(),
            i < old(self).count(),
        ensures
            final(self).wf(),
            final(self).count() == old(self).count(),
            final(self).name_at(i as int) == old(self).name_at(i as int),
            old(self)@.contains_key(old(self).name_at(i as int)),
            final(self)@ == old(self)@.insert(
                old(self).name_at(i as int),
                old(self)@[old(self).name_at(i as int)].insert(key@, value_model(value)),
            ),
    {
        let ghost before = self.sections@;
        let found = find_key(&self.sections[i].entries, &key);
        let entry = Entry { key, value };
        let section = &mut self.sections[i];
        match found {
            Some(j) => {
                proof {
                    lemma_table_overwrite(section.entries@, j as int, entry);
                }
                section.entries.set(j, entry);
            },
            None => {
                proof {
                    lemma_table_push(section.entries@, entry);
                }
                section.entries.push(entry);
            },
        }
        proof {
            lemma_tables_overwrite(before, i as int, self.sections@[i as int]);
            assert(self.sections@ =~= before.update(i as int, self.sections@[i as int]));
        }
    }

    /// Whether the document has a section of this name.
    pub fn has_section(&self, name: &str) -> (r: bool)
        requires
            self.wf(),
        ensures
            r == self@.contains_key(name@),
    {
        let name = name.to_owned();
        match find_name(&self.sections, &name) {
            Some(i) => {
                assert(names_of(self.sections@)[i as int] == name@);
                true
            },
            None => false,
        }
    }

    /// The value of `key` in `section`: `None` where the section or the key
    /// is missing, `Some(None)` where the key is there without a value.
    pub fn get(&self, section: &str, key: &str) -> (r: Option<Option<String>>)
        requires
            self.wf(),
        ensures
            r is Some <==> self@.contains_key(section@) && self@[section@].contains_key(key@),
            match r {
                Some(v) => value_model(v) == self@[section@][key@],
                None => true,
            },
    {
        let section = section.to_owned();
        let key = key.to_owned();
        match find_name(&self.sections, &section) {
            Some(i) => {
                proof {
                    lemma_position(names_of(self.sections@), i as int);
                }
                match find_key(&self.sections[i].entries, &key) {
                    Some(j) => {
                        proof {
                            lemma_position(keys_of(self.sections[i as int].entries@), j as int);
                        }
                        match &self.sections[i].entries[j].value {
                            Some(v) => Some(Some(v.clone())),
                            None => Some(None),
                        }
                    },
                    None => None,
                }
            },
            None => None,
        }
    }

    /// The names of the sections, each once, the default section first.
    pub fn section_names(&self) -> (r: Vec<String>)
        requires
            self.wf(),
        ensures
            r.len() > 0,
            r[0]@ == default_name(),
            lists(r@, self@.dom()),
    {
        let mut r: Vec<String> = Vec::new();
        let mut i: usize = 0;
        while i < self.sections.len()
            invariant
                i <= self.sections.len(),
                r.len() == i,
                forall|j: int| 0 <= j < i ==> #[trigger] r[j]@ == names_of(self.sections@)[j],
            decreases self.sections.len() - i,
        {
            r.push(self.sections[i].name.clone());
            i += 1;
        }
        proof {
            let names = names_of(self.sections@);
            assert forall|n: Seq<char>| self@.contains_key(n) implies exists|i: int|
                0 <= i < r.len() && #[trigger] r[i]@ == n by {
                let p = names.index_of(n);
                assert(r[p]@ == n);
            }
            assert forall|n: Seq<char>|
                (exists|i: int| 0 <= i < r.len() && #[trigger] r[i]@ == n) implies self@.contains_key(
                n,
            ) by {
                let p = choose|i: int| 0 <= i < r.len() && #[trigger] r[i]@ == n;
                assert(names[p] == n);
            }
            assert forall|i: int, j: int| 0 <= i < j < r.len() implies r[i]@ != r[j]@ by {
                assert(names[i] != names[j]);
            }
            assert(lists(r@, self@.dom()));
        }
        r
    }

    /// The keys of `section`, each once, or `None` where the document has no
    /// such section.
    pub fn keys(&self, section: &str) -> (r: Option<Vec<String>>)
        requires
            self.wf(),
        ensures
            r is Some <==> self@.contains_key(section@),
            match r {
                Some(ks) => lists(ks@, self@[section@].dom()),
                None => true,
            },
    {
        let section = section.to_owned();
        match find_name(&self.sections, &section) {
            Some(at) => {
                proof {
                    lemma_position(names_of(self.sections@), at as int);
                }
                let entries = &self.sections[at].entries;
                let mut ks: Vec<String> = Vec::new();
                let mut i: usize = 0;
                while i < entries.len()
                    invariant
                        i <= entries.len(),
                        ks.len() == i,
                        forall|j: int| 0 <= j < i ==> #[trigger] ks[j]@ == keys_of(entries@)[j],
                    decreases entries.len() - i,
                {
                    ks.push(entries[i].key.clone());
                    i += 1;
                }
                proof {
                    let names = keys_of(entries@);
                    lemma_position(names_of(self.sections@), at as int);
                    assert(names_of(self.sections@)[at as int] == section@);
                    assert(self@[section@] == table(entries@));
                    assert forall|k: Seq<char>|
                        self@[section@].contains_key(k) <==> exists|i: int|
                            0 <= i < ks.len() && #[trigger] ks[i]@ == k by {
                        if names.contains(k) {
                            let p = names.index_of(k);
                            assert(ks[p]@ == k);
                        }
                        if exists|i: int| 0 <= i < ks.len() && #[trigger] ks[i]@ == k {
                            let p = choose|i: int| 0 <= i < ks.len() && #[trigger] ks[i]@ == k;
                            assert(names[p] == k);
                        }
                    }
                    assert forall|i: int, j: int| 0 <= i < j < ks.len() implies ks[i]@ != ks[j]@ by {
                        assert(names[i] != names[j]);
                    }
                    assert(lists(ks@, self@[section@].dom()));
                }
                Some(ks)
            },
            None => None,
        }
    }

    /// Makes `name` a section of the document, empty unless it is already
    /// there.
    pub fn add_section(&mut self, name: &str)
        requires
            old(self).wf(),
        ensures
            final(self).wf(),
            final(self)@ == if old(self)@.contains_key(name@) {
                old(self)@
            } else {
                old(self)@.insert(name@, Map::<Seq<char>, Option<Seq<char>>>::empty())
            },
    {
        self.open_section(name.to_owned());
    }

    /// Gives `key` the value `value` in `section`, in place of what it had
    /// there. A section that is missing is made first.
    pub fn set(&mut self, section: &str, key: &str, value: Option<&str>)
        requires
            old(self).wf(),
        ensures
            final(self).wf(),
            final(self)@ == old(self)@.insert(
                section@,
                (if old(self)@.contains_key(section@) {
                    old(self)@[section@]
                } else {
                    Map::<Seq<char>, Option<Seq<char>>>::empty()
                }).insert(
                    key@,
                    match value {
                        Some(v) => Some(v@),
                        None => None,
                    },
                ),
            ),
    {
        let ghost before = self@;
        let at = self.open_section(section.to_owned());
        let owned = match value {
            Some(v) => Some(v.to_owned()),
            None => None,
        };
        let ghost middle = self@;
        self.put_at(at, key.to_owned(), owned);
        proof {
            let empty = Map::<Seq<char>, Option<Seq<char>>>::empty();
            if !before.contains_key(section@) {
                assert(middle[section@] == empty);
                assert(middle.insert(section@, empty.insert(key@, value_model(owned)))
                    =~= before.insert(section@, empty.insert(key@, value_model(owned))));
            }
        }
    }

    /// Whether every section of this document is a section of `other` that
    /// holds each of its keys with the same value.
    pub fn within(&self, other: &Document) -> (r: bool)
        requires
            self.wf(),
            other.wf(),
        ensures
            r == (forall|n: Seq<char>| #[trigger]
                self@.contains_key(n) ==> other@.contains_key(n) && self@[n].submap_of(other@[n])),
    {
        let mut i: usize = 0;
        while i < self.sections.len()
            invariant
                i <= self.sections.len(),
                self.wf(),
                other.wf(),
                forall|j: int|
                    0 <= j < i ==> other@.contains_key(#[trigger] names_of(self.sections@)[j])
                        && table(self.sections[j].entries@).submap_of(
                        other@[names_of(self.sections@)[j]],
                    ),
            decreases self.sections.len() - i,
        {
            proof {
                lemma_position(names_of(self.sections@), i as int);
            }
            let ghost n = self.sections[i as int].name@;
            assert(names_of(self.sections@)[i as int] == n);
            assert(self@.contains_key(n) && self@[n] == table(self.sections[i as int].entries@));
            match find_name(&other.sections, &self.sections[i].name) {
                Some(j) => {
                    proof {
                        lemma_position(names_of(other.sections@), j as int);
                    }
                    assert(names_of(other.sections@)[j as int] == n);
                    assert(other@[n] == table(other.sections[j as int].entries@));
                    if !entries_within(&self.sections[i].entries, &other.sections[j].entries) {
                        return false;
                    }
                },
                None => {
                    assert(!other@.contains_key(n));
                    return false;
                },
            }
            i += 1;
        }
        proof {
            assert forall|n: Seq<char>| #[trigger] self@.contains_key(n) implies other@.contains_key(
                n,
            ) && self@[n].submap_of(other@[n]) by {
                let p = names_of(self.sections@).index_of(n);
                assert(names_of(self.sections@)[p] == n);
            }
        }
        true
    }

    /// Whether the two documents are the same mapping, in whatever order
    /// their sections and keys were written.
    pub fn same_as(&self, other: &Document) -> (r: bool)
        requires
            self.wf(),
            other.wf(),
        ensures
            r == (self@ == other@),
    {
        let r = self.within(other) && other.within(self);
        proof {
            if r {
                assert forall|n: Seq<char>| self@.contains_key(n) implies #[trigger] self@[n]
                    == other@[n] by {
                    assert(other@.contains_key(n));
                    assert(self@[n] =~= other@[n]);
                }
                assert forall|n: Seq<char>| other@.contains_key(n) implies self@.contains_key(n) by {}
                assert(self@ =~= other@);
            }
        }
        r
    }
}

} // verus!
