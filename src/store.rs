use vstd::prelude::*;
use vstd::std_specs::iter::IteratorSpec;

verus! {

/// A line of the store as the contracts see it: the text before its first
/// `=`, and the path after that `=` where the line has one. A line with a path
/// is a record that binds the path to the name; a line without `=` is kept as
/// it stands and binds nothing.
pub type Entry = (Seq<char>, Option<Seq<char>>);

/// The line `e` is a record that binds `name`.
pub open spec fn binds(e: Entry, name: Seq<char>) -> bool {
    e.1 is Some && e.0 == name
}

/// Why an operation on the store did not succeed.
#[derive(Debug, Clone, Copy, PartialEq, Eq, Structural)]
pub enum StoreError {
    /// No record answers the query.
    NotFound,
    /// The alias name is empty or holds `=` or `/`.
    InvalidName,
}

/// A line of the store: where `path` is set, a binding of the alias `name` to
/// a directory path; else a line without `=`, all of it in `name`.
pub struct AliasRecord {
    pub name: String,
    pub path: Option<String>,
}

/// The view of an optional path.
pub open spec fn path_view(p: Option<String>) -> Option<Seq<char>> {
    match p {
        Some(s) => Some(s@),
        None => None,
    }
}

impl AliasRecord {
    /// The line as the contracts see it.
    pub open spec fn entry(self) -> Entry {
        (self.name@, path_view(self.path))
    }
}

/// The alias table: the non-blank lines of the store file, in order. Records
/// are kept in the order in which they were added.
pub struct AliasStore {
    records: Vec<AliasRecord>,
}

/// A name that may be bound: not empty, and free of the record separator `=`
/// and of the path separator `/`.
pub open spec fn valid_name(name: Seq<char>) -> bool {
    &&& name.len() > 0
    &&& !name.contains('=')
    &&& !name.contains('/')
}

/// Some record is bound to `name`.
pub open spec fn has_name(recs: Seq<Entry>, name: Seq<char>) -> bool {
    exists|i: int| 0 <= i < recs.len() && binds(#[trigger] recs[i], name)
}

/// No two records are bound to the same name.
pub open spec fn names_unique(recs: Seq<Entry>) -> bool {
    forall|i: int, j: int|
        0 <= i < recs.len() && 0 <= j < recs.len() && i != j && (#[trigger] recs[i]).1 is Some
            ==> !binds(#[trigger] recs[j], recs[i].0)
}

/// Record `i` is the first one bound to `name`.
pub open spec fn first_named(recs: Seq<Entry>, name: Seq<char>, i: int) -> bool {
    &&& 0 <= i < recs.len()
    &&& binds(recs[i], name)
    &&& forall|j: int| 0 <= j < i ==> !binds(#[trigger] recs[j], name)
}

/// Record `i` is the first one whose path is `path`.
pub open spec fn first_at_path(recs: Seq<Entry>, path: Seq<char>, i: int) -> bool {
    &&& 0 <= i < recs.len()
    &&& recs[i].1 == Some(path)
    &&& forall|j: int| 0 <= j < i ==> (#[trigger] recs[j]).1 != Some(path)
}

/// The path of the first record bound to `name`, if any.
pub open spec fn lookup(recs: Seq<Entry>, name: Seq<char>) -> Option<Seq<char>> {
    if exists|i: int| first_named(recs, name, i) {
        recs[choose|i: int| first_named(recs, name, i)].1
    } else {
        None
    }
}

/// The name of the first record whose path is `path`, if any.
pub open spec fn lookup_by_path(recs: Seq<Entry>, path: Seq<char>) -> Option<Seq<char>> {
    if exists|i: int| first_at_path(recs, path, i) {
        Some(recs[choose|i: int| first_at_path(recs, path, i)].0)
    } else {
        None
    }
}

/// The records after saving `path` under `name`: the first binding of a name wins.
pub open spec fn saved(recs: Seq<Entry>, name: Seq<char>, path: Seq<char>) -> Seq<Entry> {
    if has_name(recs, name) {
        recs
    } else {
        recs.push((name, Some(path)))
    }
}

/// Whether a line is kept when `name` is removed.
pub open spec fn kept_without(name: Seq<char>) -> spec_fn(Entry) -> bool {
    |e: Entry| !binds(e, name)
}

/// The lines after removing every binding of `name`, the others kept in order.
pub open spec fn removed(recs: Seq<Entry>, name: Seq<char>) -> Seq<Entry> {
    recs.filter(kept_without(name))
}

/// How a line shows in a listing: a record as `name = path;`, another line as
/// itself followed by `;`.
pub open spec fn listed_entry(e: Entry) -> Seq<char> {
    match e.1 {
        Some(p) => e.0 + " = "@ + p + ";"@,
        None => e.0 + ";"@,
    }
}

/// The listing of all lines, one after the other in order.
pub open spec fn listing(recs: Seq<Entry>) -> Seq<char>
    decreases recs.len(),
{
    if recs.len() == 0 {
        Seq::empty()
    } else {
        listing(recs.drop_last()) + listed_entry(recs.last())
    }
}

/// Position `k` holds the first `/` of `t`.
pub open spec fn first_slash(t: Seq<char>, k: int) -> bool {
    &&& 0 <= k < t.len()
    &&& t[k] == '/'
    &&& forall|j: int| 0 <= j < k ==> t[j] != '/'
}

/// What a target resolves to. A target without `/` is an alias; one with `/`
/// is an alias up to its first `/`, and what follows is appended to the
/// alias's path after a `/`.
pub open spec fn resolved(recs: Seq<Entry>, target: Seq<char>) -> Option<Seq<char>> {
    if exists|k: int| first_slash(target, k) {
        let k = choose|k: int| first_slash(target, k);
        match lookup(recs, target.subrange(0, k)) {
            Some(p) => Some(p + "/"@ + target.subrange(k + 1, target.len() as int)),
            None => None,
        }
    } else {
        lookup(recs, target)
    }
}

impl View for AliasStore {
    type V = Seq<Entry>;

    closed spec fn view(&self) -> Seq<Entry> {
        self.records@.map_values(|r: AliasRecord| r.entry())
    }
}

/// The characters of `s`, in order.
pub(crate) fn chars_of(s: &str) -> (r: Vec<char>)
    ensures
        r@ == s@,
{
    broadcast use vstd::string::axiom_spec_iter, vstd::string::next_postcondition;

    let mut out: Vec<char> = Vec::new();
    let mut it = s.chars();
    loop
        invariant
            out@ + it.remaining() == s@,
            it.decrease() is Some,
        ensures
            out@ == s@,
        decreases it.decrease()->0,
    {
        match it.next() {
            Some(c) => {
                out.push(c);
            },
            None => {
                assert(out@ + it.remaining() =~= out@);
                break;
            },
        }
    }
    out
}

/// Whether `name` may be bound; `Err(InvalidName)` exactly where it may not.
pub fn validate_name(name: &str) -> (r: Result<(), StoreError>)
    ensures
        r is Ok <==> valid_name(name@),
        r is Err ==> r == Err::<(), StoreError>(StoreError::InvalidName),
{
    let chars = chars_of(name);
    let n = chars.len();
    if n == 0 {
        return Err(StoreError::InvalidName);
    }
    let mut i: usize = 0;
    while i < n
        invariant
            chars@ == name@,
            n == name@.len(),
            i <= n,
            forall|j: int| 0 <= j < i ==> name@[j] != '=' && name@[j] != '/',
        decreases n - i,
    {
        let c = chars[i];
        if c == '=' || c == '/' {
            return Err(StoreError::InvalidName);
        }
        i += 1;
    }
    Ok(())
}

impl AliasStore {
    /// An empty store.
    pub fn new() -> (s: AliasStore)
        ensures
            s@ == Seq::<Entry>::empty(),
    {
        let s = AliasStore { records: Vec::new() };
        assert(s@ =~= Seq::<Entry>::empty());
        s
    }

    /// The number of lines.
    pub fn len(&self) -> (n: usize)
        ensures
            n == self@.len(),
    {
        self.records.len()
    }

    /// The line at index `i`.
    pub fn record(&self, i: usize) -> (r: &AliasRecord)
        requires
            i < self@.len(),
        ensures
            r.entry() == self@[i as int],
    {
        &self.records[i]
    }

    /// Appends a line as it stands, whatever the lines before it hold.
    pub(crate) fn push_record(&mut self, name: String, path: Option<String>)
        ensures
            final(self)@ == old(self)@.push((name@, path_view(path))),
    {
        self.records.push(AliasRecord { name, path });
        assert(final(self)@ =~= old(self)@.push((name@, path_view(path))));
    }

    /// The index of the first record bound to `name`, if any.
    fn position_of(&self, name: &String) -> (r: Option<usize>)
        ensures
            match r {
                Some(i) => first_named(self@, name@, i as int),
                None => !has_name(self@, name@),
            },
    {
        let mut i: usize = 0;
        while i < self.records.len()
            invariant
                i <= self@.len(),
                self@.len() == self.records@.len(),
                forall|j: int| 0 <= j < i ==> !binds(#[trigger] self@[j], name@),
            decreases self.records.len() - i,
        {
            if self.records[i].path.is_some() && self.records[i].name == *name {
                return Some(i);
            }
            i += 1;
        }
        None
    }

    /// Whether some record is bound to `name`.
    pub fn contains(&self, name: &str) -> (r: bool)
        ensures
            r == has_name(self@, name@),
    {
        let key = String::from_str(name);
        self.position_of(&key).is_some()
    }

    /// The path bound to `name`: that of the first record with this name.
    pub fn load(&self, name: &str) -> (r: Result<String, StoreError>)
        ensures
            r is Ok <==> lookup(self@, name@) is Some,
            match r {
                Ok(p) => lookup(self@, name@) == Some(p@),
                Err(e) => e == StoreError::NotFound,
            },
    {
        let key = String::from_str(name);
        match self.position_of(&key) {
            Some(i) => {
                let ghost k = choose|k: int| first_named(self@, name@, k);
                assert(k == i as int);
                match &self.records[i].path {
                    Some(p) => Ok(p.clone()),
                    None => Err(StoreError::NotFound),
                }
            },
            None => {
                assert(!exists|k: int| first_named(self@, name@, k));
                Err(StoreError::NotFound)
            },
        }
    }

    /// Binds `path` to `name` unless `name` is bound already, in which case the
    /// store is left as it is. `Ok(true)` when a record was added, `Ok(false)`
    /// when the name was bound before; an invalid name is refused before any
    /// change.
    pub fn save(&mut self, name: &str, path: &str) -> (r: Result<bool, StoreError>)
        ensures
            r is Err <==> !valid_name(name@),
            r is Err ==> r == Err::<bool, StoreError>(StoreError::InvalidName) && final(self)@
                == old(self)@,
            r is Ok ==> final(self)@ == saved(old(self)@, name@, path@),
            r == Ok::<bool, StoreError>(true) <==> (valid_name(name@) && !has_name(
                old(self)@,
                name@,
            )),
    {
        validate_name(name)?;
        let key = String::from_str(name);
        if self.position_of(&key).is_some() {
            Ok(false)
        } else {
            self.push_record(key, Some(String::from_str(path)));
            Ok(true)
        }
    }

    /// Drops every record bound to `name` and keeps all other lines in order; a
    /// name that is not bound leaves the store as it is.
    pub fn remove(&mut self, name: &str)
        ensures
            final(self)@ == removed(old(self)@, name@),
    {
        let key = String::from_str(name);
        let ghost recs = self@;
        let ghost pred = kept_without(name@);
        let records = &self.records;
        let mut kept: Vec<AliasRecord> = Vec::new();
        let mut i: usize = 0;
        while i < records.len()
            invariant
                i <= records@.len(),
                recs == records@.map_values(|r: AliasRecord| r.entry()),
                key@ == name@,
                pred == kept_without(name@),
                kept@.map_values(|r: AliasRecord| r.entry()) == recs.subrange(0, i as int).filter(
                    pred,
                ),
            decreases records.len() - i,
        {
            let r = &records[i];
            proof {
                reveal(Seq::filter);
                assert(recs.subrange(0, i + 1).drop_last() =~= recs.subrange(0, i as int));
            }
            if !(r.path.is_some() && r.name == key) {
                let path = match &r.path {
                    Some(p) => Some(p.clone()),
                    None => None,
                };
                kept.push(AliasRecord { name: r.name.clone(), path });
            }
            assert(kept@.map_values(|r: AliasRecord| r.entry()) =~= recs.subrange(
                0,
                i + 1,
            ).filter(pred));
            i += 1;
        }
        assert(recs.subrange(0, records@.len() as int) =~= recs);
        self.records = kept;
    }

    /// The name of the first record whose path is `path`.
    pub fn find_name_by_path(&self, path: &str) -> (r: Result<String, StoreError>)
        ensures
            r is Ok <==> lookup_by_path(self@, path@) is Some,
            match r {
                Ok(n) => lookup_by_path(self@, path@) == Some(n@),
                Err(e) => e == StoreError::NotFound,
            },
    {
        let key = String::from_str(path);
        let mut i: usize = 0;
        while i < self.records.len()
            invariant
                i <= self@.len(),
                self@.len() == self.records@.len(),
                key@ == path@,
                forall|j: int| 0 <= j < i ==> (#[trigger] self@[j]).1 != Some(path@),
            decreases self.records.len() - i,
        {
            if let Some(p) = &self.records[i].path {
                if *p == key {
                    let ghost k = choose|k: int| first_at_path(self@, path@, k);
                    assert(first_at_path(self@, path@, i as int));
                    assert(k == i as int);
                    return Ok(self.records[i].name.clone());
                }
            }
            i += 1;
        }
        assert(!exists|k: int| first_at_path(self@, path@, k));
        Err(StoreError::NotFound)
    }

    /// Every line in order: each record shown as `name = path;`, each other
    /// line as itself followed by `;`.
    pub fn list_all(&self) -> (s: String)
        ensures
            s@ == listing(self@),
    {
        let mut out = String::new();
        let mut i: usize = 0;
        while i < self.records.len()
            invariant
                i <= self@.len(),
                self@.len() == self.records@.len(),
                out@ == listing(self@.subrange(0, i as int)),
            decreases self.records.len() - i,
        {
            let r = &self.records[i];
            assert(self@.subrange(0, i + 1).drop_last() =~= self@.subrange(0, i as int));
            out.append(r.name.as_str());
            if let Some(p) = &r.path {
                out.append(" = ");
                out.append(p.as_str());
            }
            out.append(";");
            assert(out@ =~= listing(self@.subrange(0, i + 1)));
            i += 1;
        }
        assert(self@.subrange(0, self@.len() as int) =~= self@);
        out
    }

    /// The path that `target` resolves to (see `resolved`).
    pub fn resolve(&self, target: &str) -> (r: Result<String, StoreError>)
        ensures
            r is Ok <==> resolved(self@, target@) is Some,
            match r {
                Ok(p) => resolved(self@, target@) == Some(p@),
                Err(e) => e == StoreError::NotFound,
            },
    {
        let chars = chars_of(target);
        let n = chars.len();
        let mut k: usize = 0;
        while k < n
            invariant
                chars@ == target@,
                n == target@.len(),
                k <= n,
                forall|j: int| 0 <= j < k ==> target@[j] != '/',
            ensures
                k <= n,
                forall|j: int| 0 <= j < k ==> target@[j] != '/',
                k < n ==> target@[k as int] == '/',
            decreases n - k,
        {
            if chars[k] == '/' {
                break;
            }
            k += 1;
        }
        if k == n {
            assert(!exists|j: int| first_slash(target@, j));
            return self.load(target);
        }
        let ghost c = choose|j: int| first_slash(target@, j);
        assert(first_slash(target@, k as int));
        assert(c == k as int);
        let alias = target.substring_char(0, k);
        let rest = target.substring_char(k + 1, n);
        let base = self.load(alias)?;
        let mut out = base;
        out.append("/");
        out.append(rest);
        Ok(out)
    }
}

} // verus!
