use vstd::prelude::*;

use crate::store::{chars_of, AliasStore, Entry};

verus! {

/// The position of the first `=` in a line, if any.
pub open spec fn first_eq(line: Seq<char>) -> Option<int>
    decreases line.len(),
{
    if line.len() == 0 {
        None
    } else {
        match first_eq(line.drop_last()) {
            Some(k) => Some(k),
            None => if line.last() == '=' {
                Some(line.len() - 1)
            } else {
                None
            },
        }
    }
}

/// What a line of a store file is: a blank line is nothing; a line with `=`
/// is a record, the text before its first `=` the name and the text after it
/// the path; any other line is kept as it stands.
pub open spec fn line_record(line: Seq<char>) -> Option<Entry> {
    if line.len() == 0 {
        None
    } else {
        match first_eq(line) {
            Some(k) => Some((line.subrange(0, k), Some(line.subrange(k + 1, line.len() as int)))),
            None => Some((line, None)),
        }
    }
}

/// `recs` followed by what `line` is, unless it is blank.
pub open spec fn add_line(recs: Seq<Entry>, line: Seq<char>) -> Seq<Entry> {
    match line_record(line) {
        Some(e) => recs.push(e),
        None => recs,
    }
}

/// Reading text up to its end: what its finished lines are, and the line that
/// is still open.
pub open spec fn scan(t: Seq<char>) -> (Seq<Entry>, Seq<char>)
    decreases t.len(),
{
    if t.len() == 0 {
        (Seq::empty(), Seq::empty())
    } else {
        let (recs, cur) = scan(t.drop_last());
        if t.last() == '\n' {
            (add_line(recs, cur), Seq::empty())
        } else {
            (recs, cur.push(t.last()))
        }
    }
}

/// The lines that the text of a store file holds, in file order.
pub open spec fn parsed(t: Seq<char>) -> Seq<Entry> {
    add_line(scan(t).0, scan(t).1)
}

/// `done` followed by `line` and a line break, unless `line` is blank.
pub open spec fn finish_kept(done: Seq<char>, line: Seq<char>) -> Seq<char> {
    if line.len() == 0 {
        done
    } else {
        done + line + "\n"@
    }
}

/// Copying text up to its end without its blank lines: the finished lines
/// kept, each followed by a line break, and the line that is still open.
pub open spec fn tidy_scan(t: Seq<char>) -> (Seq<char>, Seq<char>)
    decreases t.len(),
{
    if t.len() == 0 {
        (Seq::empty(), Seq::empty())
    } else {
        let (done, cur) = tidy_scan(t.drop_last());
        if t.last() == '\n' {
            (finish_kept(done, cur), Seq::empty())
        } else {
            (done, cur.push(t.last()))
        }
    }
}

/// The non-blank lines of `t`, in order, each followed by a line break.
pub open spec fn tidied(t: Seq<char>) -> Seq<char> {
    finish_kept(tidy_scan(t).0, tidy_scan(t).1)
}

/// The text of a line in a store file: `name=path` for a record, the line
/// itself for another one, and a line break.
pub open spec fn record_line(e: Entry) -> Seq<char> {
    match e.1 {
        Some(p) => e.0 + "="@ + p + "\n"@,
        None => e.0 + "\n"@,
    }
}

/// The text of a store file that holds `recs`, one line each.
pub open spec fn rendered(recs: Seq<Entry>) -> Seq<char>
    decreases recs.len(),
{
    if recs.len() == 0 {
        Seq::empty()
    } else {
        rendered(recs.drop_last()) + record_line(recs.last())
    }
}

/// What is appended to a store file that reads `text` to add the record `e`:
/// its line, after a line break where the file's last line is unfinished.
pub open spec fn appended(text: Seq<char>, e: Entry) -> Seq<char> {
    if text.len() == 0 || text.last() == '\n' {
        record_line(e)
    } else {
        "\n"@ + record_line(e)
    }
}

/// The text to append to a store file that reads `text` so that it holds a
/// record binding `path` to `name` after the others.
pub fn line_to_append(text: &str, name: &str, path: &str) -> (r: String)
    ensures
        r@ == appended(text@, (name@, Some(path@))),
{
    let chars = chars_of(text);
    let n = chars.len();
    let mut out = if n == 0 || chars[n - 1] == '\n' {
        String::new()
    } else {
        String::from_str("\n")
    };
    out.append(name);
    out.append("=");
    out.append(path);
    out.append("\n");
    assert(out@ =~= appended(text@, (name@, Some(path@))));
    out
}

/// Adds to `store` what the line `text[start..end]` is, whose first `=`
/// stands at `eq_at` if anywhere.
fn finish_line(store: &mut AliasStore, text: &str, start: usize, end: usize, eq_at: Option<usize>)
    requires
        start <= end <= text@.len(),
        match eq_at {
            Some(k) => start <= k < end && first_eq(text@.subrange(start as int, end as int))
                == Some(k - start),
            None => first_eq(text@.subrange(start as int, end as int)) is None,
        },
    ensures
        final(store)@ == add_line(old(store)@, text@.subrange(start as int, end as int)),
{
    if start == end {
        return;
    }
    let ghost line = text@.subrange(start as int, end as int);
    match eq_at {
        Some(k) => {
            let name = text.substring_char(start, k);
            let path = text.substring_char(k + 1, end);
            assert(name@ =~= line.subrange(0, k - start));
            assert(path@ =~= line.subrange(k - start + 1, line.len() as int));
            store.push_record(String::from_str(name), Some(String::from_str(path)));
        },
        None => {
            let whole = text.substring_char(start, end);
            store.push_record(String::from_str(whole), None);
        },
    }
}

impl AliasStore {
    /// The store that the text of a store file holds: each non-blank line, in
    /// file order; a line with `=` is a record.
    pub fn parse(text: &str) -> (s: AliasStore)
        ensures
            s@ == parsed(text@),
    {
        let chars = chars_of(text);
        let mut store = AliasStore::new();
        let mut start: usize = 0;
        let mut eq_at: Option<usize> = None;
        let mut i: usize = 0;
        while i < chars.len()
            invariant
                chars@ == text@,
                start <= i <= chars@.len(),
                scan(text@.subrange(0, i as int)) == (store@, text@.subrange(
                    start as int,
                    i as int,
                )),
                match eq_at {
                    Some(k) => start <= k < i && first_eq(text@.subrange(start as int, i as int))
                        == Some(k - start),
                    None => first_eq(text@.subrange(start as int, i as int)) is None,
                },
            decreases chars.len() - i,
        {
            let c = chars[i];
            let ghost cur = text@.subrange(start as int, i as int);
            assert(text@.subrange(0, i + 1).drop_last() =~= text@.subrange(0, i as int));
            if c == '\n' {
                finish_line(&mut store, text, start, i, eq_at);
                start = i + 1;
                eq_at = None;
                assert(text@.subrange(start as int, i + 1) =~= Seq::<char>::empty());
            } else {
                assert(text@.subrange(start as int, i + 1) =~= cur.push(c));
                assert(cur.push(c).drop_last() =~= cur);
                if eq_at.is_none() && c == '=' {
                    eq_at = Some(i);
                }
            }
            i += 1;
        }
        assert(text@.subrange(0, i as int) =~= text@);
        finish_line(&mut store, text, start, i, eq_at);
        store
    }

    /// The text of a store file that holds this store's lines.
    pub fn to_text(&self) -> (t: String)
        ensures
            t@ == rendered(self@),
    {
        let mut out = String::new();
        let mut i: usize = 0;
        while i < self.len()
            invariant
                i <= self@.len(),
                out@ == rendered(self@.subrange(0, i as int)),
            decreases self@.len() - i,
        {
            let r = self.record(i);
            assert(self@.subrange(0, i + 1).drop_last() =~= self@.subrange(0, i as int));
            out.append(r.name.as_str());
            if let Some(p) = &r.path {
                out.append("=");
                out.append(p.as_str());
            }
            out.append("\n");
            assert(out@ =~= rendered(self@.subrange(0, i + 1)));
            i += 1;
        }
        assert(self@.subrange(0, self@.len() as int) =~= self@);
        out
    }
}

} // verus!
