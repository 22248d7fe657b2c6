use vstd::prelude::*;

use crate::format::{add_line, appended, finish_kept, tidied, tidy_scan, first_eq, line_record, parsed, record_line, rendered, scan};
use crate::store::{
    binds,     first_at_path, first_named, kept_without, first_slash, has_name, listed_entry, listing, lookup,
    lookup_by_path, names_unique, removed, resolved, saved, valid_name, Entry,
};

verus! {

/// Loading a name right after saving a path under it gives that path back,
/// unless the name was bound before, in which case the earlier path stays.
pub proof fn lemma_save_then_load(recs: Seq<Entry>, name: Seq<char>, path: Seq<char>)
    ensures
        !has_name(recs, name) ==> lookup(saved(recs, name, path), name) == Some(path),
        has_name(recs, name) ==> lookup(saved(recs, name, path), name) == lookup(recs, name),
{
    if !has_name(recs, name) {
        let s = saved(recs, name, path);
        assert(first_named(s, name, recs.len() as int));
        let k = choose|k: int| first_named(s, name, k);
        assert(k == recs.len() as int);
    }
}

/// Saving never binds a name twice: a store whose names are unique keeps them
/// unique.
pub proof fn lemma_save_keeps_names_unique(recs: Seq<Entry>, name: Seq<char>, path: Seq<char>)
    requires
        names_unique(recs),
    ensures
        names_unique(saved(recs, name, path)),
{
    let s = saved(recs, name, path);
    assert forall|i: int, j: int|
        0 <= i < s.len() && 0 <= j < s.len() && i != j && (#[trigger] s[i]).1 is Some implies !binds(
        #[trigger] s[j],
        s[i].0,
    ) by {
        if i < recs.len() && j < recs.len() {
            assert(s[i] == recs[i] && s[j] == recs[j]);
        } else if i < recs.len() {
            assert(s[i] == recs[i]);
        } else {
            assert(s[j] == recs[j]);
        }
    }
}

/// Saving leaves the binding of every other name as it was.
pub proof fn lemma_save_keeps_others(
    recs: Seq<Entry>,
    name: Seq<char>,
    path: Seq<char>,
    other: Seq<char>,
)
    requires
        other != name,
    ensures
        lookup(saved(recs, name, path), other) == lookup(recs, other),
{
    if !has_name(recs, name) {
        lemma_lookup_push(recs, (name, Some(path)), other);
    }
}

/// The first write wins: a second save under a bound name changes nothing,
/// so a load still gives the path saved first.
pub proof fn lemma_first_write_wins(
    recs: Seq<Entry>,
    name: Seq<char>,
    first: Seq<char>,
    second: Seq<char>,
)
    requires
        !has_name(recs, name),
    ensures
        saved(saved(recs, name, first), name, second) == saved(recs, name, first),
        lookup(saved(saved(recs, name, first), name, second), name) == Some(first),
{
    let s = saved(recs, name, first);
    assert(binds(s[recs.len() as int], name));
    lemma_save_then_load(recs, name, first);
}

/// After a name is removed, loading it finds nothing.
pub proof fn lemma_remove_then_load(recs: Seq<Entry>, name: Seq<char>)
    ensures
        lookup(removed(recs, name), name) is None,
{
    let pred = kept_without(name);
    let r = removed(recs, name);
    assert forall|k: int| !first_named(r, name, k) by {
        if 0 <= k < r.len() {
            recs.lemma_filter_pred(pred, k);
        }
    }
}

/// Removing a name that is not bound leaves every record as it was.
pub proof fn lemma_remove_absent(recs: Seq<Entry>, name: Seq<char>)
    requires
        !has_name(recs, name),
    ensures
        removed(recs, name) == recs,
    decreases recs.len(),
{
    reveal(Seq::filter);
    if recs.len() > 0 {
        let init = recs.drop_last();
        assert(!has_name(init, name)) by {
            if has_name(init, name) {
                let i = choose|i: int| 0 <= i < init.len() && binds(#[trigger] init[i], name);
                assert(binds(recs[i], name));
            }
        }
        lemma_remove_absent(init, name);
        assert(!binds(recs[recs.len() - 1], name));
        assert(removed(recs, name) =~= recs);
    }
}

/// Looking a name up in records with one more at the end: the earlier
/// records answer first.
proof fn lemma_lookup_push(recs: Seq<Entry>, e: Entry, name: Seq<char>)
    ensures
        lookup(recs.push(e), name) == (if lookup(recs, name) is Some {
            lookup(recs, name)
        } else if binds(e, name) {
            e.1
        } else {
            None
        }),
{
    let s = recs.push(e);
    if exists|k: int| first_named(recs, name, k) {
        let k = choose|k: int| first_named(recs, name, k);
        assert(first_named(s, name, k));
        let k2 = choose|k2: int| first_named(s, name, k2);
        assert(k2 == k);
    } else {
        assert forall|j: int| 0 <= j < recs.len() implies !binds(#[trigger] recs[j], name) by {
            if binds(recs[j], name) {
                lemma_first_named_exists(recs, name, j);
            }
        }
        if binds(e, name) {
            assert(first_named(s, name, recs.len() as int));
            let k2 = choose|k2: int| first_named(s, name, k2);
            assert(k2 == recs.len() as int);
        } else {
            assert forall|k: int| !first_named(s, name, k) by {
                if first_named(s, name, k) {
                    assert(s[k] == recs[k]);
                }
            }
        }
    }
}

/// Where some record is bound to `name`, a first such record exists.
proof fn lemma_first_named_exists(recs: Seq<Entry>, name: Seq<char>, j: int)
    requires
        0 <= j < recs.len(),
        binds(recs[j], name),
    ensures
        exists|i: int| first_named(recs, name, i),
    decreases j,
{
    if exists|i: int| 0 <= i < j && binds(#[trigger] recs[i], name) {
        let i = choose|i: int| 0 <= i < j && binds(#[trigger] recs[i], name);
        lemma_first_named_exists(recs, name, i);
    } else {
        assert(first_named(recs, name, j));
    }
}

/// Removing a name leaves the binding of every other name as it was.
pub proof fn lemma_remove_keeps_others(recs: Seq<Entry>, name: Seq<char>, other: Seq<char>)
    requires
        other != name,
    ensures
        lookup(removed(recs, name), other) == lookup(recs, other),
    decreases recs.len(),
{
    reveal(Seq::filter);
    if recs.len() == 0 {
        assert(removed(recs, name) =~= recs);
    } else {
        let init = recs.drop_last();
        let e = recs.last();
        lemma_remove_keeps_others(init, name, other);
        assert(init.push(e) =~= recs);
        lemma_lookup_push(init, e, other);
        if !binds(e, name) {
            assert(removed(recs, name) == removed(init, name).push(e));
            lemma_lookup_push(removed(init, name), e, other);
        } else {
            assert(removed(recs, name) == removed(init, name));
        }
    }
}

/// A target made of a bound alias, a `/` and a rest resolves to the alias's
/// path, a `/` and the same rest.
pub proof fn lemma_resolve_composite(
    recs: Seq<Entry>,
    alias: Seq<char>,
    rest: Seq<char>,
    path: Seq<char>,
)
    requires
        valid_name(alias),
        lookup(recs, alias) == Some(path),
    ensures
        resolved(recs, alias + "/"@ + rest) == Some(path + "/"@ + rest),
{
    reveal_strlit("/");
    let t = alias + "/"@ + rest;
    let n = alias.len() as int;
    assert(t[n] == '/');
    assert forall|j: int| 0 <= j < n implies t[j] != '/' by {
        assert(t[j] == alias[j]);
        if alias[j] == '/' {
            assert(alias.contains('/'));
        }
    }
    assert(first_slash(t, n));
    let k = choose|k: int| first_slash(t, k);
    assert(k == n);
    assert(t.subrange(0, n) =~= alias);
    assert(t.subrange(n + 1, t.len() as int) =~= rest);
}

/// After a name is saved at a path that no record had, that path leads back
/// to the name, and every other path leads where it led before.
pub proof fn lemma_save_then_find_by_path(recs: Seq<Entry>, name: Seq<char>, path: Seq<char>)
    requires
        !has_name(recs, name),
        lookup_by_path(recs, path) is None,
    ensures
        lookup_by_path(saved(recs, name, path), path) == Some(name),
        forall|other: Seq<char>|
            other != path ==> #[trigger] lookup_by_path(saved(recs, name, path), other)
                == lookup_by_path(recs, other),
{
    let s = saved(recs, name, path);
    assert forall|j: int| 0 <= j < recs.len() implies (#[trigger] recs[j]).1 != Some(path) by {
        if recs[j].1 == Some(path) {
            assert(exists|i: int| first_at_path(recs, path, i)) by {
                lemma_first_at_path_exists(recs, path, j);
            }
        }
    }
    assert(first_at_path(s, path, recs.len() as int));
    let k = choose|k: int| first_at_path(s, path, k);
    assert(k == recs.len() as int);
    assert forall|other: Seq<char>| other != path implies #[trigger] lookup_by_path(s, other)
        == lookup_by_path(recs, other) by {
        if exists|k: int| first_at_path(recs, other, k) {
            let k = choose|k: int| first_at_path(recs, other, k);
            assert(first_at_path(s, other, k));
            let k2 = choose|k2: int| first_at_path(s, other, k2);
            assert(k2 == k);
        } else {
            assert forall|k: int| !first_at_path(s, other, k) by {
                if first_at_path(s, other, k) {
                    assert(k < recs.len());
                    assert forall|j: int| 0 <= j < k implies (#[trigger] recs[j]).1 != Some(other) by {
                        assert(s[j] == recs[j]);
                    }
                    assert(first_at_path(recs, other, k));
                }
            }
        }
    }
}

/// Where some record has `path`, a first such record exists.
proof fn lemma_first_at_path_exists(recs: Seq<Entry>, path: Seq<char>, j: int)
    requires
        0 <= j < recs.len(),
        recs[j].1 == Some(path),
    ensures
        exists|i: int| first_at_path(recs, path, i),
    decreases j,
{
    if exists|i: int| 0 <= i < j && (#[trigger] recs[i]).1 == Some(path) {
        let i = choose|i: int| 0 <= i < j && (#[trigger] recs[i]).1 == Some(path);
        lemma_first_at_path_exists(recs, path, i);
    } else {
        assert(first_at_path(recs, path, j));
    }
}

/// A listing shows records in the order they were saved: saving a new name
/// adds its entry at the end.
pub proof fn lemma_listing_in_order(recs: Seq<Entry>, name: Seq<char>, path: Seq<char>)
    requires
        !has_name(recs, name),
    ensures
        listing(saved(recs, name, path)) == listing(recs) + listed_entry((name, Some(path))),
{
    let s = saved(recs, name, path);
    assert(s.drop_last() =~= recs);
}

/// A line without `=` has no first `=`.
proof fn lemma_no_eq(t: Seq<char>)
    requires
        !t.contains('='),
    ensures
        first_eq(t) is None,
    decreases t.len(),
{
    if t.len() > 0 {
        let init = t.drop_last();
        assert(!init.contains('=')) by {
            if init.contains('=') {
                let i = choose|i: int| 0 <= i < init.len() && init[i] == '=';
                assert(t[i] == '=');
            }
        }
        lemma_no_eq(init);
        assert(t[t.len() - 1] != '=');
    }
}

/// In `name=path`, with no `=` in the name, the first `=` follows the name.
proof fn lemma_eq_after_name(name: Seq<char>, path: Seq<char>)
    requires
        !name.contains('='),
    ensures
        first_eq(name + "="@ + path) == Some(name.len() as int),
    decreases path.len(),
{
    reveal_strlit("=");
    if path.len() == 0 {
        lemma_no_eq(name);
        assert((name + "="@ + path).drop_last() =~= name);
    } else {
        lemma_eq_after_name(name, path.drop_last());
        assert((name + "="@ + path).drop_last() =~= name + "="@ + path.drop_last());
    }
}

/// Text without a line break is one open line.
proof fn lemma_scan_open_line(t: Seq<char>)
    requires
        !t.contains('\n'),
    ensures
        scan(t) == (Seq::<Entry>::empty(), t),
    decreases t.len(),
{
    if t.len() > 0 {
        let init = t.drop_last();
        assert(!init.contains('\n')) by {
            if init.contains('\n') {
                let i = choose|i: int| 0 <= i < init.len() && init[i] == '\n';
                assert(t[i] == '\n');
            }
        }
        lemma_scan_open_line(init);
        assert(t[t.len() - 1] != '\n');
        assert(init.push(t.last()) =~= t);
    }
}

/// Reading text that follows finished lines adds its records after theirs.
proof fn lemma_scan_concat(a: Seq<char>, b: Seq<char>)
    requires
        scan(a).1.len() == 0,
    ensures
        scan(a + b) == (scan(a).0 + scan(b).0, scan(b).1),
    decreases b.len(),
{
    if b.len() == 0 {
        assert(a + b =~= a);
        assert(scan(a).0 + scan(b).0 =~= scan(a).0);
        assert(scan(a).1 =~= Seq::<char>::empty());
    } else {
        lemma_scan_concat(a, b.drop_last());
        assert((a + b).drop_last() =~= a + b.drop_last());
        let (rb, cb) = scan(b.drop_last());
        match line_record(cb) {
            Some(e) => {
                assert((scan(a).0 + rb).push(e) =~= scan(a).0 + rb.push(e));
            },
            None => {},
        }
    }
}

/// A line that a store file can keep as it is: no line break anywhere, no `=`
/// in its name, and not blank.
pub open spec fn storable(e: Entry) -> bool {
    &&& !e.0.contains('=')
    &&& !e.0.contains('\n')
    &&& match e.1 {
        Some(p) => !p.contains('\n'),
        None => e.0.len() > 0,
    }
}

/// The line of a storable entry reads back as that entry, the line then
/// finished.
proof fn lemma_scan_record_line(e: Entry)
    requires
        storable(e),
    ensures
        scan(record_line(e)) == (seq![e], Seq::<char>::empty()),
{
    reveal_strlit("=");
    reveal_strlit("\n");
    match e.1 {
        Some(p) => {
            let body = e.0 + "="@ + p;
            let line = record_line(e);
            assert(line.drop_last() =~= body);
            assert(!body.contains('\n')) by {
                if body.contains('\n') {
                    let i = choose|i: int| 0 <= i < body.len() && body[i] == '\n';
                    if i < e.0.len() {
                        assert(e.0[i] == '\n');
                    } else if i > e.0.len() {
                        assert(p[i - e.0.len() - 1] == '\n');
                    }
                }
            }
            lemma_scan_open_line(body);
            lemma_eq_after_name(e.0, p);
            let k = e.0.len() as int;
            assert(body.subrange(0, k) =~= e.0);
            assert(body.subrange(k + 1, body.len() as int) =~= p);
            assert(add_line(Seq::<Entry>::empty(), body) =~= seq![e]);
        },
        None => {
            let line = record_line(e);
            assert(line.drop_last() =~= e.0);
            lemma_scan_open_line(e.0);
            lemma_no_eq(e.0);
            assert(add_line(Seq::<Entry>::empty(), e.0) =~= seq![e]);
        },
    }
}

/// Appending the line of a storable entry to a store file whose lines are
/// all finished adds that entry after the others: a save that appends its
/// line is read back by the next load.
pub proof fn lemma_append_line(text: Seq<char>, e: Entry)
    requires
        text.len() == 0 || text.last() == '\n',
        storable(e),
    ensures
        parsed(text + record_line(e)) == parsed(text).push(e),
{
    assert(scan(text).1.len() == 0);
    lemma_scan_record_line(e);
    lemma_scan_concat(text, record_line(e));
    assert(first_eq(Seq::<char>::empty()) is None);
    assert(scan(text).0 + seq![e] =~= scan(text).0.push(e));
}

/// The text of a store, read back, gives the same records, provided each one
/// is storable.
pub proof fn lemma_parse_rendered(recs: Seq<Entry>)
    requires
        forall|i: int| 0 <= i < recs.len() ==> storable(#[trigger] recs[i]),
    ensures
        parsed(rendered(recs)) == recs,
    decreases recs.len(),
{
    if recs.len() > 0 {
        let init = recs.drop_last();
        assert forall|i: int| 0 <= i < init.len() implies storable(#[trigger] init[i]) by {
            assert(init[i] == recs[i]);
        }
        lemma_parse_rendered(init);
        let t = rendered(init);
        assert(t.len() == 0 || t.last() == '\n') by {
            reveal_strlit("\n");
            if init.len() > 0 {
                let l = record_line(init.last());
                assert((rendered(init.drop_last()) + l).last() == l.last());
            }
        }
        lemma_append_line(t, recs.last());
        assert(init.push(recs.last()) =~= recs);
    }
}

/// Whatever a store file holds, appending what a save appends for a storable
/// record adds that record after the others.
pub proof fn lemma_save_appends(text: Seq<char>, e: Entry)
    requires
        storable(e),
    ensures
        parsed(text + appended(text, e)) == parsed(text).push(e),
{
    reveal_strlit("\n");
    if text.len() == 0 || text.last() == '\n' {
        lemma_append_line(text, e);
    } else {
        let t = text + "\n"@;
        assert(t.drop_last() =~= text);
        assert(first_eq(Seq::<char>::empty()) is None);
        assert(parsed(t) == parsed(text));
        lemma_append_line(t, e);
        assert(text + appended(text, e) =~= t + record_line(e));
    }
}

/// The first `=` of a line is a `=` of the line.
proof fn lemma_first_eq_in_line(line: Seq<char>)
    ensures
        match first_eq(line) {
            Some(k) => 0 <= k < line.len() && line[k] == '=',
            None => true,
        },
    decreases line.len(),
{
    if line.len() > 0 {
        lemma_first_eq_in_line(line.drop_last());
    }
}

/// Writing back what a line is gives the line again, with a line break.
proof fn lemma_add_line_rendered(recs: Seq<Entry>, line: Seq<char>)
    ensures
        rendered(add_line(recs, line)) == finish_kept(rendered(recs), line),
{
    reveal_strlit("=");
    reveal_strlit("\n");
    if line.len() > 0 {
        let e = line_record(line)->0;
        assert(recs.push(e).drop_last() =~= recs);
        lemma_first_eq_in_line(line);
        match first_eq(line) {
            Some(k) => {
                assert(line.subrange(0, k) + "="@ + line.subrange(k + 1, line.len() as int)
                    =~= line);
                assert(record_line(e) =~= line + "\n"@);
            },
            None => {},
        }
        assert(rendered(recs) + record_line(e) =~= rendered(recs) + line + "\n"@);
    }
}

/// Copying text without its blank lines goes along with reading it.
proof fn lemma_tidy_scan(t: Seq<char>)
    ensures
        tidy_scan(t) == (rendered(scan(t).0), scan(t).1),
    decreases t.len(),
{
    if t.len() > 0 {
        lemma_tidy_scan(t.drop_last());
        lemma_add_line_rendered(scan(t.drop_last()).0, scan(t.drop_last()).1);
    }
}

/// Reading a store file and writing it back keeps its non-blank lines, in
/// order, each ending in a line break: only blank lines are dropped.
pub proof fn lemma_rewrite_keeps_lines(t: Seq<char>)
    ensures
        rendered(parsed(t)) == tidied(t),
{
    lemma_tidy_scan(t);
    lemma_add_line_rendered(scan(t).0, scan(t).1);
}

/// Saving under a name that is bound already changes nothing.
pub proof fn lemma_save_bound_name(recs: Seq<Entry>, name: Seq<char>, path: Seq<char>)
    requires
        has_name(recs, name),
    ensures
        saved(recs, name, path) == recs,
{
}

} // verus!
