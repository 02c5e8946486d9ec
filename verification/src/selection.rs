//! The entry selector: `1,3,5-8` picks entries by their 1-based row number.
use std::collections::BTreeSet;
use vstd::prelude::*;
use vstd::string::StrSliceExecFns;
use crate::text::{decimal, push_decimal};
use crate::tokens::{
    first_index, find_char, lemma_first_index, lemma_split_first, parse_usize,
    parse_usize_range, split_on, to_chars, trim, trim_bounds,
};

verus! {

broadcast use vstd::laws_cmp::group_laws_cmp;

/// Which entries an operation applies to.
#[derive(Debug, PartialEq)]
pub enum EntrySelection {
    All,
    Selected(BTreeSet<usize>),
}

impl View for EntrySelection {
    /// `None` for every entry, else the set of selected entry numbers.
    type V = Option<Set<usize>>;

    open spec fn view(&self) -> Option<Set<usize>> {
        match self {
            EntrySelection::All => None,
            EntrySelection::Selected(s) => Some(s@),
        }
    }
}

/// Whether entry `entry_no` is in the selection `sel`.
pub open spec fn selects(sel: Option<Set<usize>>, entry_no: int) -> bool {
    match sel {
        None => true,
        Some(s) => 0 <= entry_no <= usize::MAX && s.contains(entry_no as usize),
    }
}

/// What reading one entry number from `tok` gives for an archive of `total` entries.
pub open spec fn entry_no_result(tok: Seq<char>, total: nat) -> Result<nat, Seq<char>> {
    match parse_usize(tok) {
        None => Err("invalid entry number: '"@ + tok + "'"@),
        Some(n) => if n == 0 {
            Err("entry numbers start at 1"@)
        } else if n > total {
            Err("entry number "@ + decimal(n) + " is out of range (archive has "@ + decimal(total)
                + " entries)"@)
        } else {
            Ok(n)
        },
    }
}

/// The entries from `a` to `b`, both included.
pub open spec fn range_set(a: nat, b: nat) -> Set<usize> {
    Set::new(|x: usize| a <= x <= b)
}

/// What one comma-separated item of a selector denotes: a single entry
/// number or an ascending range `a-b`, with white space around the parts.
#[verifier::opaque]
pub open spec fn item_result(part: Seq<char>, total: nat) -> Result<Set<usize>, Seq<char>> {
    let tok = trim(part);
    if tok.len() == 0 {
        Err("entry selector contains an empty item"@)
    } else {
        match first_index(tok, '-') {
            Some(k) => match entry_no_result(trim(tok.take(k)), total) {
                Err(e) => Err(e),
                Ok(a) => match entry_no_result(trim(tok.skip(k + 1)), total) {
                    Err(e) => Err(e),
                    Ok(b) => if a > b {
                        Err("entry range '"@ + tok + "' is descending"@)
                    } else {
                        Ok(range_set(a, b))
                    },
                },
            },
            None => match entry_no_result(tok, total) {
                Err(e) => Err(e),
                Ok(a) => Ok(set![a as usize]),
            },
        }
    }
}

/// The union of the items `parts` with `acc`, or the error of the first
/// item that has one.
pub open spec fn items_result(parts: Seq<Seq<char>>, total: nat, acc: Set<usize>) -> Result<
    Set<usize>,
    Seq<char>,
>
    decreases parts.len(),
{
    if parts.len() == 0 {
        Ok(acc)
    } else {
        match item_result(parts[0], total) {
            Err(e) => Err(e),
            Ok(s) => items_result(parts.drop_first(), total, acc.union(s)),
        }
    }
}

/// What the selector `raw` denotes for an archive of `total` entries: every
/// entry when there is no selector (`Ok(None)`), else the selected numbers
/// or the first error.
#[verifier::opaque]
pub open spec fn selection_result(raw: Option<Seq<char>>, total: nat) -> Result<
    Option<Set<usize>>,
    Seq<char>,
> {
    match raw {
        None => Ok(None),
        Some(r) => if trim(r).len() == 0 {
            Err("entry selector must not be empty"@)
        } else {
            match items_result(split_on(r, ','), total, Set::empty()) {
                Ok(s) => Ok(Some(s)),
                Err(e) => Err(e),
            }
        },
    }
}

/// The entry numbers of an archive of `total` entries: `1..=total`.
pub open spec fn entry_numbers(total: nat) -> Set<usize> {
    Set::new(|x: usize| 1 <= x <= total)
}

proof fn lemma_item_in_range(part: Seq<char>, total: nat)
    ensures
        item_result(part, total) matches Ok(t) ==> t.subset_of(entry_numbers(total)),
{
    reveal(item_result);
}

proof fn lemma_items_in_range(parts: Seq<Seq<char>>, total: nat, acc: Set<usize>)
    requires
        acc.subset_of(entry_numbers(total)),
    ensures
        items_result(parts, total, acc) matches Ok(t) ==> t.subset_of(entry_numbers(total)),
    decreases parts.len(),
{
    if parts.len() > 0 {
        lemma_item_in_range(parts[0], total);
        if let Ok(t) = item_result(parts[0], total) {
            lemma_items_in_range(parts.drop_first(), total, acc.union(t));
        }
    }
}

/// A selector only ever selects entry numbers of the archive: each lies in
/// `1..=total`.
pub proof fn law_selection_in_range(raw: Option<Seq<char>>, total: nat)
    ensures
        selection_result(raw, total) matches Ok(Some(s)) ==> s.subset_of(entry_numbers(total)),
{
    reveal(selection_result);
    if let Some(r) = raw {
        lemma_items_in_range(split_on(r, ','), total, Set::empty());
    }
}

/// There are `total` entry numbers.
pub proof fn lemma_entry_numbers_len(total: nat)
    requires
        total <= usize::MAX,
    ensures
        entry_numbers(total).finite(),
        entry_numbers(total).len() == total,
    decreases total,
{
    if total == 0 {
        assert(entry_numbers(0) =~= Set::<usize>::empty());
    } else {
        lemma_entry_numbers_len((total - 1) as nat);
        assert(entry_numbers(total) =~= entry_numbers((total - 1) as nat).insert(total as usize));
    }
}

/// A selector selects at most as many entries as the archive has.
pub proof fn law_selection_count(raw: Option<Seq<char>>, total: nat)
    requires
        total <= usize::MAX,
    ensures
        selection_result(raw, total) matches Ok(Some(s)) ==> s.finite() && s.len() <= total,
{
    law_selection_in_range(raw, total);
    lemma_entry_numbers_len(total);
    if let Ok(Some(s)) = selection_result(raw, total) {
        vstd::set_lib::lemma_len_subset(s, entry_numbers(total));
    }
}

/// Read one entry number, which must lie in `1..=total_entries`.
pub fn parse_entry_no(token: &str, total_entries: usize) -> (r: Result<usize, String>)
    ensures
        match entry_no_result(token@, total_entries as nat) {
            Ok(n) => r == Ok::<usize, String>(n as usize),
            Err(e) => r is Err && r->Err_0@ == e,
        },
{
    let chars = to_chars(token);
    let n = chars.len();
    proof {
        assert(chars@.subrange(0, n as int) =~= token@);
    }
    match parse_usize_range(&chars, 0, n) {
        None => {
            let mut e = String::from_str("invalid entry number: '");
            e.append(token);
            e.append("'");
            Err(e)
        },
        Some(entry_no) => {
            if entry_no == 0 {
                Err(String::from_str("entry numbers start at 1"))
            } else if entry_no > total_entries {
                let mut e = String::from_str("entry number ");
                push_decimal(&mut e, entry_no as u64);
                e.append(" is out of range (archive has ");
                push_decimal(&mut e, total_entries as u64);
                e.append(" entries)");
                Err(e)
            } else {
                Ok(entry_no)
            }
        },
    }
}

/// Add the entries `a..=b` to `set`.
fn insert_range(set: &mut BTreeSet<usize>, a: usize, b: usize)
    requires
        a <= b,
    ensures
        final(set)@ == old(set)@.union(range_set(a as nat, b as nat)),
{
    let mut x = a;
    loop
        invariant
            a <= x <= b,
            set@ == old(set)@.union(Set::new(|y: usize| a <= y < x)),
        decreases b - x,
    {
        set.insert(x);
        if x == b {
            proof {
                assert(set@ =~= old(set)@.union(range_set(a as nat, b as nat)));
            }
            return;
        }
        x = x + 1;
        proof {
            assert(set@ =~= old(set)@.union(Set::new(|y: usize| a <= y < x)));
        }
    }
}

/// Add the entries denoted by the item `chars[lo..hi]` of the selector `raw`
/// to `entries`.
fn add_item(
    raw: &str,
    chars: &Vec<char>,
    lo: usize,
    hi: usize,
    total_entries: usize,
    entries: &mut BTreeSet<usize>,
) -> (r: Result<(), String>)
    requires
        chars@ == raw@,
        lo <= hi <= chars@.len(),
    ensures
        match item_result(chars@.subrange(lo as int, hi as int), total_entries as nat) {
            Ok(t) => r is Ok && final(entries)@ == old(entries)@.union(t),
            Err(e) => r is Err && r->Err_0@ == e,
        },
{
    reveal(item_result);
    let ghost part = chars@.subrange(lo as int, hi as int);
    let ghost total = total_entries as nat;
    let (a, b) = trim_bounds(chars, lo, hi);
    let ghost tok = chars@.subrange(a as int, b as int);
    if a == b {
        return Err(String::from_str("entry selector contains an empty item"));
    }
    let dash = find_char(chars, '-', a, b);
    proof {
        lemma_first_index(tok, '-', dash - a);
    }
    if dash < b {
        let (s0, s1) = trim_bounds(chars, a, dash);
        let (e0, e1) = trim_bounds(chars, dash + 1, b);
        proof {
            assert(tok.take(dash - a) =~= chars@.subrange(a as int, dash as int));
            assert(tok.skip(dash - a + 1) =~= chars@.subrange(dash + 1, b as int));
        }
        let start = match parse_entry_no(raw.substring_char(s0, s1), total_entries) {
            Ok(v) => v,
            Err(e) => return Err(e),
        };
        let end = match parse_entry_no(raw.substring_char(e0, e1), total_entries) {
            Ok(v) => v,
            Err(e) => return Err(e),
        };
        if start > end {
            let mut e = String::from_str("entry range '");
            e.append(raw.substring_char(a, b));
            e.append("' is descending");
            return Err(e);
        }
        insert_range(entries, start, end);
    } else {
        let one = match parse_entry_no(raw.substring_char(a, b), total_entries) {
            Ok(v) => v,
            Err(e) => return Err(e),
        };
        entries.insert(one);
        proof {
            assert(entries@ =~= old(entries)@.union(set![one]));
        }
    }
    Ok(())
}

/// Reading the items of `s[pos..]`, whose first comma is at `k` (or which
/// has none when `k` is the end), reads the item `s[pos..k]` first.
proof fn lemma_items_split(s: Seq<char>, pos: int, k: int, total: nat, acc: Set<usize>)
    requires
        0 <= pos <= k <= s.len(),
        forall|j: int| pos <= j < k ==> s[j] != ',',
        k < s.len() ==> s[k] == ',',
    ensures
        items_result(split_on(s.subrange(pos, s.len() as int), ','), total, acc) == match item_result(
            s.subrange(pos, k),
            total,
        ) {
            Err(e) => Err(e),
            Ok(t) => if k < s.len() {
                items_result(split_on(s.subrange(k + 1, s.len() as int), ','), total, acc.union(t))
            } else {
                Ok(acc.union(t))
            },
        },
{
    let rest = s.subrange(pos, s.len() as int);
    assert forall|j: int| 0 <= j < k - pos implies rest[j] != ',' by {
        assert(rest[j] == s[pos + j]);
    }
    if k < s.len() {
        assert(rest[k - pos] == s[k]);
    }
    lemma_split_first(rest, ',', k - pos);
    assert(rest.take(k - pos) =~= s.subrange(pos, k));
    let tail = if k < s.len() {
        assert(rest.skip(k - pos + 1) =~= s.subrange(k + 1, s.len() as int));
        split_on(s.subrange(k + 1, s.len() as int), ',')
    } else {
        Seq::<Seq<char>>::empty()
    };
    let pieces = split_on(rest, ',');
    assert(pieces == seq![s.subrange(pos, k)] + tail);
    assert(pieces[0] == s.subrange(pos, k));
    assert(pieces.drop_first() =~= tail);
    match item_result(s.subrange(pos, k), total) {
        Err(e) => {},
        Ok(t) => {
            if k == s.len() {
                assert(items_result(tail, total, acc.union(t)) == Ok::<Set<usize>, Seq<char>>(
                    acc.union(t),
                ));
            }
        },
    }
}

impl EntrySelection {
    /// Read the selector `raw` (`None`: every entry) for an archive of
    /// `total_entries` entries.
    pub fn parse(raw: Option<&str>, total_entries: usize) -> (r: Result<Self, String>)
        ensures
            match selection_result(
                match raw {
                    Some(s) => Some(s@),
                    None => None,
                },
                total_entries as nat,
            ) {
                Ok(sel) => r is Ok && r->Ok_0@ == sel,
                Err(e) => r is Err && r->Err_0@ == e,
            },
    {
        reveal(selection_result);
        let ghost raw_view = match raw {
            Some(s) => Some(s@),
            None => None,
        };
        let text = match raw {
            None => return Ok(EntrySelection::All),
            Some(t) => t,
        };
        let chars = to_chars(text);
        let n = chars.len();
        proof {
            assert(chars@.subrange(0, n as int) =~= text@);
        }
        let (ta, tb) = trim_bounds(&chars, 0, n);
        if ta == tb {
            return Err(String::from_str("entry selector must not be empty"));
        }
        let ghost total = total_entries as nat;
        let ghost whole = items_result(split_on(text@, ','), total, Set::empty());
        let mut entries: BTreeSet<usize> = BTreeSet::new();
        let mut pos: usize = 0;
        loop
            invariant
                chars@ == text@,
                n == chars@.len(),
                pos <= n,
                total == total_entries as nat,
                whole == items_result(split_on(chars@.subrange(pos as int, n as int), ','), total, entries@),
                whole == items_result(split_on(text@, ','), total, Set::empty()),
                trim(text@).len() != 0,
                raw_view == Some(text@),
                raw_view == match raw {
                    Some(s) => Some(s@),
                    None => None,
                },
            decreases n - pos,
        {
            let k = find_char(&chars, ',', pos, n);
            proof {
                lemma_items_split(chars@, pos as int, k as int, total, entries@);
            }
            match add_item(text, &chars, pos, k, total_entries, &mut entries) {
                Ok(()) => {},
                Err(e) => {
                    proof {
                        reveal(selection_result);
                    }
                    return Err(e);
                },
            }
            if k == n {
                proof {
                    reveal(selection_result);
                }
                return Ok(EntrySelection::Selected(entries));
            }
            pos = k + 1;
        }
    }

    /// Whether entry `entry_no` (1-based) is selected.
    pub fn includes(&self, entry_no: usize) -> (r: bool)
        ensures
            r == selects(self@, entry_no as int),
    {
        match self {
            EntrySelection::All => true,
            EntrySelection::Selected(entries) => entries.contains(&entry_no),
        }
    }

    /// How many entries are selected out of `total_entries`.
    pub fn count(&self, total_entries: usize) -> (r: usize)
        ensures
            r == match self@ {
                None => total_entries as nat,
                Some(s) => s.len(),
            },
    {
        match self {
            EntrySelection::All => total_entries,
            EntrySelection::Selected(entries) => entries.len(),
        }
    }

    /// Whether every entry is selected.
    pub fn is_all(&self) -> (r: bool)
        ensures
            r == (self@ is None),
    {
        match self {
            EntrySelection::All => true,
            EntrySelection::Selected(_) => false,
        }
    }
}

} // verus!
