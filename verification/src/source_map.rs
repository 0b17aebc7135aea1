//! The source-map decoder.
//!
//! A source map is a semicolon-separated string; each entry is itself
//! colon-separated into up to five positional fields: source offset,
//! length, source-file index, jump type and modifier depth.  An empty,
//! missing or malformed field inherits the value resolved for the
//! previous entry, so decoding is a strict left-to-right fold.

use vstd::prelude::*;
use vstd::string::StrSliceExecFns;

verus! {

/// Whether `c` is an ASCII decimal digit.
pub open spec fn is_digit(c: char) -> bool {
    ('0' as u32) <= (c as u32) && (c as u32) <= ('9' as u32)
}

/// The numeric value of one decimal digit.
pub open spec fn digit_val(c: char) -> int {
    (c as u32) - ('0' as u32)
}

/// Whether every character of `s` is a decimal digit.
pub open spec fn all_digits(s: Seq<char>) -> bool {
    forall|i: int| 0 <= i < s.len() ==> is_digit(#[trigger] s[i])
}

/// The value of a digit string read in base ten.
pub open spec fn digits_val(s: Seq<char>) -> int
    decreases s.len(),
{
    if s.len() == 0 {
        0
    } else {
        digits_val(s.drop_last()) * 10 + digit_val(s.last())
    }
}

/// Whether `s` starts with an explicit sign character.
pub open spec fn has_sign(s: Seq<char>) -> bool {
    s.len() > 0 && (s[0] == '-' || s[0] == '+')
}

/// The digit characters of `s`, after any sign.
pub open spec fn digits_part(s: Seq<char>) -> Seq<char> {
    if has_sign(s) {
        s.subrange(1, s.len() as int)
    } else {
        s
    }
}

/// What `str::parse::<isize>` returns on `s`: an optional sign followed
/// by at least one digit, the value within `isize` range; anything else
/// (empty text, a stray character, overflow) is `None`.
pub open spec fn parse_isize_spec(s: Seq<char>) -> Option<isize> {
    let ds = digits_part(s);
    if ds.len() == 0 || !all_digits(ds) {
        None
    } else if s.len() > 0 && s[0] == '-' {
        if digits_val(ds) <= -(isize::MIN as int) {
            Some((-digits_val(ds)) as isize)
        } else {
            None
        }
    } else {
        if digits_val(ds) <= isize::MAX as int {
            Some(digits_val(ds) as isize)
        } else {
            None
        }
    }
}

/// What `str::parse::<char>` returns on `s`: the character itself when
/// `s` is exactly one character long, `None` otherwise.
pub open spec fn parse_char_spec(s: Seq<char>) -> Option<char> {
    if s.len() == 1 {
        Some(s[0])
    } else {
        None
    }
}

/// `s` split at every occurrence of `sep`; always at least one piece,
/// and an empty string yields one empty piece.
pub open spec fn split_spec(s: Seq<char>, sep: char) -> Seq<Seq<char>>
    decreases s.len(),
{
    if s.len() == 0 {
        seq![Seq::<char>::empty()]
    } else {
        let rest = split_spec(s.drop_last(), sep);
        if s.last() == sep {
            rest.push(Seq::<char>::empty())
        } else {
            rest.update(rest.len() - 1, rest.last().push(s.last()))
        }
    }
}

/// One per-instruction source record.  `S`, `L`, `F` and `M` are the
/// numeric fields (source offset, length, file index, modifier depth),
/// `J` the jump classification.  Instantiated with plain values it is a
/// fully resolved record; with `Option`s it is a partial record whose
/// absent fields inherit from the previous resolved record.
#[derive(Debug, Clone, Copy, PartialEq, Eq)]
pub struct SourceItem<S, L, F, J, M> {
    /// Byte offset into the source file where the covered span begins.
    pub s: S,
    /// Byte length of the covered span.
    pub l: L,
    /// Index of the source file in a multi-file project.
    pub f: F,
    /// Jump classification: 'i' into a function, 'o' out of one,
    /// '-' regular or unspecified.
    pub j: J,
    /// Nesting depth within modifiers.
    pub m: M,
}

/// A fully resolved source record.
pub type FullSourceItem = SourceItem<isize, isize, isize, char, isize>;

/// A record parsed from one entry, before inheritance is applied.
pub type PartialSourceItem =
    SourceItem<Option<isize>, Option<isize>, Option<isize>, Option<char>, Option<isize>>;

/// The integer field at position `i` of an entry's field list: absent
/// when the position is past the end or the text does not parse.
pub open spec fn field_int(fields: Seq<Seq<char>>, i: int) -> Option<isize> {
    if 0 <= i < fields.len() {
        parse_isize_spec(fields[i])
    } else {
        None
    }
}

/// The character field at position `i` of an entry's field list.
pub open spec fn field_char(fields: Seq<Seq<char>>, i: int) -> Option<char> {
    if 0 <= i < fields.len() {
        parse_char_spec(fields[i])
    } else {
        None
    }
}

/// The partial record encoded by one colon-separated entry.
pub open spec fn partial_from_str_spec(s: Seq<char>) -> PartialSourceItem {
    let fields = split_spec(s, ':');
    PartialSourceItem {
        s: field_int(fields, 0),
        l: field_int(fields, 1),
        f: field_int(fields, 2),
        j: field_char(fields, 3),
        m: field_int(fields, 4),
    }
}

/// The resolved record that the very first entry folds against.
pub open spec fn default_item() -> FullSourceItem {
    FullSourceItem { s: 0, l: 0, f: 0, j: '-', m: 0 }
}

/// Field-wise overlay: a present field overrides, an absent one inherits.
pub open spec fn overlay(prev: FullSourceItem, cur: PartialSourceItem) -> FullSourceItem {
    FullSourceItem {
        s: if cur.s is Some { cur.s->0 } else { prev.s },
        l: if cur.l is Some { cur.l->0 } else { prev.l },
        f: if cur.f is Some { cur.f->0 } else { prev.f },
        j: if cur.j is Some { cur.j->0 } else { prev.j },
        m: if cur.m is Some { cur.m->0 } else { prev.m },
    }
}

impl FullSourceItem {
    /// Resolve one partial record against the previous resolved record.
    pub fn from_partial(prev: &FullSourceItem, current: PartialSourceItem) -> (r: Self)
        ensures
            r == overlay(*prev, current),
    {
        FullSourceItem {
            s: match current.s {
                Some(v) => v,
                None => prev.s,
            },
            l: match current.l {
                Some(v) => v,
                None => prev.l,
            },
            f: match current.f {
                Some(v) => v,
                None => prev.f,
            },
            j: match current.j {
                Some(v) => v,
                None => prev.j,
            },
            m: match current.m {
                Some(v) => v,
                None => prev.m,
            },
        }
    }
}

pub proof fn lemma_digits_val_nonneg(s: Seq<char>)
    requires
        all_digits(s),
    ensures
        digits_val(s) >= 0,
    decreases s.len(),
{
    if s.len() > 0 {
        assert(all_digits(s.drop_last()));
        lemma_digits_val_nonneg(s.drop_last());
    }
}

/// Reading more digits can only grow the value.
pub proof fn lemma_digits_val_prefix(s: Seq<char>, k: int)
    requires
        all_digits(s),
        0 <= k <= s.len(),
    ensures
        digits_val(s) >= digits_val(s.subrange(0, k)),
    decreases s.len() - k,
{
    if k < s.len() {
        lemma_digits_val_prefix(s, k + 1);
        assert(s.subrange(0, k + 1).drop_last() =~= s.subrange(0, k));
        assert(all_digits(s.subrange(0, k)));
        lemma_digits_val_nonneg(s.subrange(0, k));
    } else {
        assert(s.subrange(0, k) =~= s);
    }
}

/// The characters of `s`, one by one.
fn str_chars(s: &str) -> (r: Vec<char>)
    ensures
        r@ == s@,
{
    let n = s.unicode_len();
    let mut r: Vec<char> = Vec::new();
    let mut i: usize = 0;
    while i < n
        invariant
            n == s@.len(),
            i <= n,
            r@ == s@.subrange(0, i as int),
        decreases n - i,
    {
        let c = s.get_char(i);
        r.push(c);
        i = i + 1;
        assert(r@ =~= s@.subrange(0, i as int));
    }
    assert(r@ =~= s@);
    r
}

/// Splits `cs` at every occurrence of `sep`.
fn split_chars(cs: &Vec<char>, sep: char) -> (r: Vec<Vec<char>>)
    ensures
        r.deep_view() == split_spec(cs@, sep),
        r.len() >= 1,
{
    let mut out: Vec<Vec<char>> = Vec::new();
    out.push(Vec::new());
    assert(out.deep_view() =~~= split_spec(cs@.subrange(0, 0), sep));
    let mut i: usize = 0;
    while i < cs.len()
        invariant
            i <= cs@.len(),
            out.len() >= 1,
            out.deep_view() == split_spec(cs@.subrange(0, i as int), sep),
        decreases cs@.len() - i,
    {
        let ghost prefix = cs@.subrange(0, i as int);
        let c = cs[i];
        if c == sep {
            out.push(Vec::new());
        } else {
            let mut last = out.pop().unwrap();
            last.push(c);
            out.push(last);
        }
        i = i + 1;
        proof {
            let grown = cs@.subrange(0, i as int);
            assert(grown.drop_last() =~= prefix);
            assert(grown.last() == c);
            if c == sep {
                assert(out.deep_view() =~~= split_spec(grown, sep));
            } else {
                let rest = split_spec(prefix, sep);
                assert(out.deep_view() =~~= rest.update(rest.len() - 1, rest.last().push(c)));
            }
        }
    }
    assert(cs@.subrange(0, cs@.len() as int) =~= cs@);
    out
}

/// Parses a decimal integer the way `str::parse::<isize>` does.
fn parse_isize(cs: &Vec<char>) -> (r: Option<isize>)
    ensures
        r == parse_isize_spec(cs@),
{
    let n = cs.len();
    if n == 0 {
        return None;
    }
    let c0 = cs[0];
    let neg = c0 == '-';
    let start: usize = if neg || c0 == '+' {
        1
    } else {
        0
    };
    let ghost ds = digits_part(cs@);
    assert(ds =~= cs@.subrange(start as int, n as int));
    if start == n {
        return None;
    }
    let mut acc: u128 = 0;
    let mut i: usize = start;
    while i < n
        invariant
            start <= i <= n,
            n == cs@.len(),
            ds == digits_part(cs@),
            ds =~= cs@.subrange(start as int, n as int),
            all_digits(cs@.subrange(start as int, i as int)),
            acc == digits_val(cs@.subrange(start as int, i as int)),
            acc <= u64::MAX,
        decreases n - i,
    {
        let ghost prefix = cs@.subrange(start as int, i as int);
        let c = cs[i];
        let cu = c as u32;
        if cu < '0' as u32 || cu > '9' as u32 {
            assert(ds[i - start] == c);
            assert(!all_digits(ds));
            return None;
        }
        let d = cu - '0' as u32;
        let t: u128 = acc * 10 + (d as u128);
        proof {
            let grown = cs@.subrange(start as int, i + 1 as int);
            assert(grown.drop_last() =~= prefix);
            assert(grown.last() == c);
            assert(forall|k: int| 0 <= k < grown.len() ==> is_digit(#[trigger] grown[k]));
            assert(t == digits_val(grown));
        }
        if t > u64::MAX as u128 {
            proof {
                if all_digits(ds) {
                    let grown = cs@.subrange(start as int, i + 1 as int);
                    assert(grown =~= ds.subrange(0, i + 1 - start));
                    lemma_digits_val_prefix(ds, i + 1 - start);
                    assert(digits_val(ds) > u64::MAX);
                    assert(isize::MAX as int <= u64::MAX);
                    assert(-(isize::MIN as int) <= u64::MAX);
                }
            }
            return None;
        }
        acc = t;
        i = i + 1;
    }
    assert(cs@.subrange(start as int, i as int) =~= ds);
    if neg {
        let bound: u128 = (isize::MAX as u128) + 1;
        if acc <= bound {
            let v: i128 = -(acc as i128);
            assert(v == -digits_val(ds));
            assert(isize::MIN as int <= v <= 0);
            Some(v as isize)
        } else {
            assert(digits_val(ds) > -(isize::MIN as int));
            None
        }
    } else {
        if acc <= isize::MAX as u128 {
            Some(acc as isize)
        } else {
            None
        }
    }
}

/// Parses a single character the way `str::parse::<char>` does.
fn parse_char(cs: &Vec<char>) -> (r: Option<char>)
    ensures
        r == parse_char_spec(cs@),
{
    if cs.len() == 1 {
        Some(cs[0])
    } else {
        None
    }
}

/// The integer field at position `i`, if there is one and it parses.
fn parse_field_int(fields: &Vec<Vec<char>>, i: usize) -> (r: Option<isize>)
    ensures
        r == field_int(fields.deep_view(), i as int),
{
    if i < fields.len() {
        proof {
            assert(fields.deep_view()[i as int] =~= fields@[i as int]@);
        }
        parse_isize(&fields[i])
    } else {
        None
    }
}

/// The partial record encoded by one entry, given as characters.
fn partial_from_chars(cs: &Vec<char>) -> (r: PartialSourceItem)
    ensures
        r == partial_from_str_spec(cs@),
{
    let fields = split_chars(cs, ':');
    let s = parse_field_int(&fields, 0);
    let l = parse_field_int(&fields, 1);
    let f = parse_field_int(&fields, 2);
    let j = if fields.len() > 3 {
        proof {
            assert(fields.deep_view()[3] =~= fields@[3]@);
        }
        parse_char(&fields[3])
    } else {
        None
    };
    let m = parse_field_int(&fields, 4);
    PartialSourceItem { s, l, f, j, m }
}

impl PartialSourceItem {
    /// Parse one colon-separated entry; an empty, missing or malformed
    /// field becomes `None` rather than an error.
    pub fn from_raw(ref_str: &str) -> (r: PartialSourceItem)
        ensures
            r == partial_from_str_spec(ref_str@),
    {
        let cs = str_chars(ref_str);
        partial_from_chars(&cs)
    }
}

/// The records resolved for a sequence of entries, in entry order:
/// a strict left-to-right fold of `overlay` starting from the default.
pub open spec fn resolve_entries(entries: Seq<Seq<char>>) -> Seq<FullSourceItem>
    decreases entries.len(),
{
    if entries.len() == 0 {
        Seq::empty()
    } else {
        let prev = resolve_entries(entries.drop_last());
        let before = if entries.len() == 1 {
            default_item()
        } else {
            prev.last()
        };
        prev.push(overlay(before, partial_from_str_spec(entries.last())))
    }
}

/// The full decode of a source-map string: split at semicolons, then
/// resolve each entry against its predecessor.
pub open spec fn resolve_spec(s: Seq<char>) -> Seq<FullSourceItem> {
    resolve_entries(split_spec(s, ';'))
}

pub proof fn lemma_resolve_len(entries: Seq<Seq<char>>)
    ensures
        resolve_entries(entries).len() == entries.len(),
    decreases entries.len(),
{
    if entries.len() > 0 {
        lemma_resolve_len(entries.drop_last());
    }
}

/// Resolution is causal: the records for the first `k` entries do not
/// depend on any later entry.
pub proof fn lemma_resolve_prefix(entries: Seq<Seq<char>>, k: int)
    requires
        0 <= k <= entries.len(),
    ensures
        resolve_entries(entries.subrange(0, k)) == resolve_entries(entries).subrange(0, k),
    decreases entries.len(),
{
    lemma_resolve_len(entries);
    if k == entries.len() {
        assert(entries.subrange(0, k) =~= entries);
        assert(resolve_entries(entries).subrange(0, k) =~= resolve_entries(entries));
    } else {
        let shorter = entries.drop_last();
        lemma_resolve_len(shorter);
        assert(entries.subrange(0, k) =~= shorter.subrange(0, k));
        lemma_resolve_prefix(shorter, k);
        assert(resolve_entries(entries).subrange(0, k) =~=
            resolve_entries(shorter).subrange(0, k));
    }
}

/// Inheritance law: the record resolved for entry `i` takes each field
/// the entry gives explicitly from the entry itself, and each field the
/// entry leaves absent from the record resolved for entry `i - 1` (from
/// the all-zero default before the first entry).
pub proof fn lemma_resolution_inheritance(entries: Seq<Seq<char>>, i: int)
    requires
        0 <= i < entries.len(),
    ensures
        ({
            let r = resolve_entries(entries);
            let prev = if i == 0 {
                default_item()
            } else {
                resolve_entries(entries)[i - 1]
            };
            r[i] == overlay(prev, partial_from_str_spec(entries[i]))
        }),
{
    lemma_resolve_len(entries);
    let pre = entries.subrange(0, i + 1);
    lemma_resolve_len(pre);
    lemma_resolve_prefix(entries, i + 1);
    assert(pre.drop_last() =~= entries.subrange(0, i));
    lemma_resolve_prefix(entries, i);
    lemma_resolve_len(entries.subrange(0, i));
    assert(resolve_entries(entries)[i] == resolve_entries(pre).last());
    if i > 0 {
        assert(resolve_entries(pre.drop_last()).last() == resolve_entries(entries)[i - 1]);
    }
}

/// An entry that is the empty string resolves to exactly the previous
/// resolved record, unchanged in every field.
pub proof fn lemma_empty_entry_inherits(entries: Seq<Seq<char>>, i: int)
    requires
        0 <= i < entries.len(),
        entries[i].len() == 0,
    ensures
        ({
            let r = resolve_entries(entries);
            r[i] == (if i == 0 {
                default_item()
            } else {
                r[i - 1]
            })
        }),
{
    lemma_resolution_inheritance(entries, i);
    let fields = split_spec(entries[i], ':');
    assert(fields =~~= seq![Seq::<char>::empty()]);
    let p = partial_from_str_spec(entries[i]);
    assert(p.s is None && p.l is None && p.f is None && p.j is None && p.m is None);
}

/// A compact source map, as the compiler emits it.
pub struct SourceMap {
    raw: String,
}

impl View for SourceMap {
    type V = Seq<char>;

    closed spec fn view(&self) -> Seq<char> {
        self.raw@
    }
}

impl SourceMap {
    /// Wrap a raw source-map string.
    pub fn new(raw: String) -> (r: SourceMap)
        ensures
            r@ == raw@,
    {
        SourceMap { raw }
    }

    /// Decode the whole map: one fully resolved record per
    /// semicolon-separated entry, in entry order.
    pub fn resolve(&self) -> (r: Vec<FullSourceItem>)
        ensures
            r@ == resolve_spec(self@),
            r@.len() == split_spec(self@, ';').len(),
    {
        let cs = str_chars(self.raw.as_str());
        let entries = split_chars(&cs, ';');
        let ghost es = split_spec(self@, ';');
        let mut out: Vec<FullSourceItem> = Vec::new();
        let mut prev = FullSourceItem { s: 0, l: 0, f: 0, j: '-', m: 0 };
        let mut i: usize = 0;
        while i < entries.len()
            invariant
                i <= entries@.len(),
                entries.deep_view() == es,
                es == split_spec(self@, ';'),
                out@ == resolve_entries(es.subrange(0, i as int)),
                out@.len() == i,
                prev == (if i == 0 {
                    default_item()
                } else {
                    out@.last()
                }),
            decreases entries@.len() - i,
        {
            proof {
                assert(entries.deep_view()[i as int] =~= entries@[i as int]@);
            }
            let p = partial_from_chars(&entries[i]);
            let cur = FullSourceItem::from_partial(&prev, p);
            out.push(cur);
            prev = cur;
            i = i + 1;
            proof {
                let grown = es.subrange(0, i as int);
                assert(grown.drop_last() =~= es.subrange(0, i - 1));
                lemma_resolve_len(grown.drop_last());
            }
        }
        proof {
            assert(es.subrange(0, es.len() as int) =~= es);
            lemma_resolve_len(es);
        }
        out
    }
}

} // verus!

