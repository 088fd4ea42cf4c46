//! The rule format: literal bytes with `{Name}` or `{Name:alias}` references
//! to nonterminals; `\{` and `\}` stand for literal braces.
use vstd::prelude::*;

verus! {

pub open spec fn is_upper(c: u8) -> bool {
    65 <= c <= 90
}

/// A letter, digit, `_` or `-`.
pub open spec fn is_name_char(c: u8) -> bool {
    (65 <= c <= 90) || (97 <= c <= 122) || (48 <= c <= 57) || c == 95 || c == 45
}

/// One piece of a rule format.
pub enum FormatPart {
    Literal(Vec<u8>),
    Nonterminal(Vec<u8>),
}

/// The mathematical value of a `FormatPart`.
pub enum PartView {
    Literal(Seq<u8>),
    Nonterminal(Seq<u8>),
}

impl View for FormatPart {
    type V = PartView;

    open spec fn view(&self) -> PartView {
        match self {
            FormatPart::Literal(v) => PartView::Literal(v@),
            FormatPart::Nonterminal(v) => PartView::Nonterminal(v@),
        }
    }
}

/// The first index from `j` on that holds `}` or `\`, or the length.
pub open spec fn scan_close(f: Seq<u8>, j: int) -> int
    decreases f.len() - j,
{
    if j >= f.len() || f[j] == 125 || f[j] == 92 { j } else { scan_close(f, j + 1) }
}

/// The length of the reference `{...}` that starts at `i`, 0 if none does.
pub open spec fn ref_len(f: Seq<u8>, i: int) -> int {
    if i >= f.len() || f[i] != 123 {
        0
    } else {
        let j = scan_close(f, i + 1);
        if j < f.len() && f[j] == 125 && j > i + 1 { j - i + 1 } else { 0 }
    }
}

/// The end of the literal run that starts at `i`: it stops before a `{`
/// that is not escaped.
pub open spec fn literal_end(f: Seq<u8>, i: int) -> int
    decreases f.len() - i,
{
    if i >= f.len() || i < 0 || f[i] == 123 {
        i
    } else if f[i] == 92 && i + 1 < f.len() && (f[i + 1] == 123 || f[i + 1] == 125) {
        literal_end(f, i + 2)
    } else {
        literal_end(f, i + 1)
    }
}

/// `s` with every `\c` replaced by `c`, scanning from the left.
pub open spec fn unescape_one(s: Seq<u8>, c: u8) -> Seq<u8>
    decreases s.len(),
{
    if s.len() < 2 {
        s
    } else if s[0] == 92 && s[1] == c {
        seq![c] + unescape_one(s.subrange(2, s.len() as int), c)
    } else {
        seq![s[0]] + unescape_one(s.subrange(1, s.len() as int), c)
    }
}

/// The bytes of a literal run: `\{` becomes `{`, then `\}` becomes `}`.
pub open spec fn unescape(s: Seq<u8>) -> Seq<u8> {
    unescape_one(unescape_one(s, 123), 125)
}

/// The index of the first `:` in `s` from `j` on, or its length.
pub open spec fn colon_at(s: Seq<u8>, j: int) -> int
    decreases s.len() - j,
{
    if j >= s.len() || s[j] == 58 { j } else { colon_at(s, j + 1) }
}

/// The name in the contents of a reference (`Name` or `Name:alias`), if the
/// contents are well formed.
pub open spec fn ref_name(content: Seq<u8>) -> Option<Seq<u8>> {
    let p = colon_at(content, 0);
    if p >= 1 && is_upper(content[0]) && (forall|k: int| 1 <= k < p ==> is_name_char(#[trigger] content[k]))
        && (forall|k: int| p < k < content.len() ==> is_name_char(#[trigger] content[k])) {
        Some(content.subrange(0, p))
    } else {
        None
    }
}

/// The pieces of `f` from index `i` on; `None` when a reference is not well
/// formed. A `{` that opens no reference is dropped.
pub open spec fn parse_from(f: Seq<u8>, i: int) -> Option<Seq<PartView>>
    decreases f.len() - i,
{
    if i >= f.len() || i < 0 {
        Some(Seq::empty())
    } else if f[i] == 123 {
        let l = ref_len(f, i);
        if l > 0 {
            match ref_name(f.subrange(i + 1, i + l - 1)) {
                Some(name) => match parse_from(f, i + l) {
                    Some(rest) => Some(seq![PartView::Nonterminal(name)] + rest),
                    None => None,
                },
                None => None,
            }
        } else {
            parse_from(f, i + 1)
        }
    } else {
        let e = literal_end(f, i);
        if e <= i {
            None
        } else {
            proof { lemma_literal_end_bounds(f, i); }
            match parse_from(f, e) {
                Some(rest) => Some(seq![PartView::Literal(unescape(f.subrange(i, e)))] + rest),
                None => None,
            }
        }
    }
}

/// A literal run ends within the format, after its first byte when that is not `{`.
pub proof fn lemma_literal_end_bounds(f: Seq<u8>, i: int)
    requires
        0 <= i <= f.len(),
    ensures
        i <= literal_end(f, i) <= f.len(),
        i < f.len() && f[i] != 123 ==> literal_end(f, i) > i,
    decreases f.len() - i,
{
    if i < f.len() && f[i] != 123 {
        if f[i] == 92 && i + 1 < f.len() && (f[i + 1] == 123 || f[i + 1] == 125) {
            lemma_literal_end_bounds(f, i + 2);
        } else {
            lemma_literal_end_bounds(f, i + 1);
        }
    }
}

proof fn lemma_scan_close_bounds(f: Seq<u8>, j: int)
    requires
        0 <= j <= f.len(),
    ensures
        j <= scan_close(f, j) <= f.len(),
    decreases f.len() - j,
{
    if j < f.len() && f[j] != 125 && f[j] != 92 {
        lemma_scan_close_bounds(f, j + 1);
    }
}

fn copy_range(f: &Vec<u8>, lo: usize, hi: usize) -> (r: Vec<u8>)
    requires
        lo <= hi <= f.len(),
    ensures
        r@ == f@.subrange(lo as int, hi as int),
{
    let mut r: Vec<u8> = Vec::new();
    let mut k: usize = lo;
    while k < hi
        invariant
            lo <= k <= hi,
            hi <= f.len(),
            r@ == f@.subrange(lo as int, k as int),
        decreases hi - k,
    {
        r.push(f[k]);
        k = k + 1;
        assert(r@ =~= f@.subrange(lo as int, k as int));
    }
    r
}

fn unescape_one_exec(s: &Vec<u8>, c: u8) -> (r: Vec<u8>)
    ensures
        r@ == unescape_one(s@, c),
{
    let mut r: Vec<u8> = Vec::new();
    let mut k: usize = 0;
    assert(s@.subrange(0, s@.len() as int) =~= s@);
    assert(r@ + unescape_one(s@, c) =~= unescape_one(s@, c));
    while k < s.len()
        invariant
            k <= s.len(),
            r@ + unescape_one(s@.subrange(k as int, s@.len() as int), c) == unescape_one(s@, c),
        decreases s.len() - k,
    {
        let ghost rest = s@.subrange(k as int, s@.len() as int);
        if k + 1 < s.len() && s[k] == 92 && s[k + 1] == c {
            r.push(c);
            proof {
                assert(rest.subrange(2, rest.len() as int) =~= s@.subrange(k + 2, s@.len() as int));
                assert(r@ + unescape_one(s@.subrange(k + 2, s@.len() as int), c) =~= unescape_one(s@, c));
            }
            k = k + 2;
        } else {
            r.push(s[k]);
            proof {
                if rest.len() >= 2 {
                    assert(rest.subrange(1, rest.len() as int) =~= s@.subrange(k + 1, s@.len() as int));
                    assert(r@ + unescape_one(s@.subrange(k + 1, s@.len() as int), c) =~= unescape_one(s@, c));
                } else {
                    assert(s@.subrange(k + 1, s@.len() as int) =~= Seq::<u8>::empty());
                    assert(rest =~= seq![s@[k as int]]);
                    assert(r@ + unescape_one(s@.subrange(k + 1, s@.len() as int), c) =~= unescape_one(s@, c));
                }
            }
            k = k + 1;
        }
    }
    assert(s@.subrange(k as int, s@.len() as int) =~= Seq::<u8>::empty());
    assert(r@ =~= unescape_one(s@, c));
    r
}

/// The name in the contents of a reference, if they are well formed.
fn ref_name_exec(content: &Vec<u8>) -> (r: Option<Vec<u8>>)
    ensures
        r matches Some(v) ==> ref_name(content@) == Some(v@),
        r is None ==> ref_name(content@) is None,
{
    let n = content.len();
    let mut p: usize = 0;
    while p < n && content[p] != 58
        invariant
            p <= n,
            n == content@.len(),
            colon_at(content@, p as int) == colon_at(content@, 0),
        decreases n - p,
    {
        p = p + 1;
    }
    if p < 1 || !(65 <= content[0] && content[0] <= 90) {
        return None;
    }
    let mut k: usize = 1;
    while k < n
        invariant
            1 <= k <= n,
            n == content@.len(),
            p == colon_at(content@, 0),
            1 <= p <= n,
            forall|m: int| 1 <= m < k && m != p ==> is_name_char(#[trigger] content@[m]),
        decreases n - k,
    {
        let c = content[k];
        if k != p && !((65 <= c && c <= 90) || (97 <= c && c <= 122) || (48 <= c && c <= 57) || c == 95 || c == 45) {
            return None;
        }
        k = k + 1;
    }
    Some(copy_range(content, 0, p))
}

/// Splits a rule format into literal runs and nonterminal references; `None`
/// when a reference is not well formed.
pub fn parse_format(f: &Vec<u8>) -> (r: Option<Vec<FormatPart>>)
    ensures
        r matches Some(v) ==> parse_from(f@, 0) == Some(v@.map_values(|p: FormatPart| p@)),
        r is None ==> parse_from(f@, 0) is None,
{
    let n = f.len();
    let mut parts: Vec<FormatPart> = Vec::new();
    let mut i: usize = 0;
    while i < n
        invariant
            i <= n,
            n == f@.len(),
            match parse_from(f@, 0) {
                Some(all) => parse_from(f@, i as int) matches Some(rest) && all == parts@.map_values(|p: FormatPart| p@) + rest,
                None => parse_from(f@, i as int) is None,
            },
        decreases n - i,
    {
        if f[i] == 123 {
            let mut j: usize = i + 1;
            proof { lemma_scan_close_bounds(f@, i + 1); }
            while j < n && f[j] != 125 && f[j] != 92
                invariant
                    i + 1 <= j <= n,
                    n == f@.len(),
                    scan_close(f@, j as int) == scan_close(f@, i + 1),
                decreases n - j,
            {
                j = j + 1;
            }
            if j < n && f[j] == 125 && j > i + 1 {
                let content = copy_range(f, i + 1, j);
                match ref_name_exec(&content) {
                    None => {
                        return None;
                    },
                    Some(name) => {
                        let ghost pv = PartView::Nonterminal(name@);
                        let ghost before = parts@.map_values(|p: FormatPart| p@);
                        parts.push(FormatPart::Nonterminal(name));
                        proof {
                            assert(parts@.map_values(|p: FormatPart| p@) =~= before.push(pv));
                            match parse_from(f@, 0) {
                                Some(all) => {
                                    let rest = parse_from(f@, j + 1).unwrap();
                                    assert(before + (seq![pv] + rest) =~= before.push(pv) + rest);
                                },
                                None => {},
                            }
                        }
                        i = j + 1;
                    },
                }
            } else {
                i = i + 1;
            }
        } else {
            proof { lemma_literal_end_bounds(f@, i as int); }
            let mut e: usize = i;
            while e < n && f[e] != 123
                invariant
                    i <= e <= n,
                    n == f@.len(),
                    literal_end(f@, e as int) == literal_end(f@, i as int),
                    e == i || f@[i as int] != 123,
                decreases n - e,
            {
                if f[e] == 92 && e + 1 < n && (f[e + 1] == 123 || f[e + 1] == 125) {
                    e = e + 2;
                } else {
                    e = e + 1;
                }
            }
            let raw = copy_range(f, i, e);
            let once = unescape_one_exec(&raw, 123);
            let lit = unescape_one_exec(&once, 125);
            let ghost pv = PartView::Literal(lit@);
            let ghost before = parts@.map_values(|p: FormatPart| p@);
            parts.push(FormatPart::Literal(lit));
            proof {
                assert(parts@.map_values(|p: FormatPart| p@) =~= before.push(pv));
                match parse_from(f@, 0) {
                    Some(all) => {
                        let rest = parse_from(f@, e as int).unwrap();
                        assert(before + (seq![pv] + rest) =~= before.push(pv) + rest);
                    },
                    None => {},
                }
            }
            i = e;
        }
    }
    proof {
        match parse_from(f@, 0) {
            Some(all) => {
                assert(all =~= parts@.map_values(|p: FormatPart| p@));
            },
            None => {},
        }
    }
    Some(parts)
}

/// The text of a literal in a format: `{` and `}` escaped.
pub open spec fn escape_lit(l: Seq<u8>) -> Seq<u8>
    decreases l.len(),
{
    if l.len() == 0 {
        Seq::empty()
    } else {
        let c = l[0];
        (if c == 123 || c == 125 { seq![92u8, c] } else { seq![c] }) + escape_lit(l.drop_first())
    }
}

/// The literal with only `}` escaped.
pub open spec fn escape_close(l: Seq<u8>) -> Seq<u8>
    decreases l.len(),
{
    if l.len() == 0 {
        Seq::empty()
    } else {
        let c = l[0];
        (if c == 125 { seq![92u8, c] } else { seq![c] }) + escape_close(l.drop_first())
    }
}

/// The text of one piece: an escaped literal, or a reference `{Name}`.
pub open spec fn part_text(p: PartView) -> Seq<u8> {
    match p {
        PartView::Literal(l) => escape_lit(l),
        PartView::Nonterminal(n) => seq![123u8] + n + seq![125u8],
    }
}

/// The format that the pieces spell out.
pub open spec fn emit(parts: Seq<PartView>) -> Seq<u8>
    decreases parts.len(),
{
    if parts.len() == 0 { Seq::empty() } else { part_text(parts[0]) + emit(parts.drop_first()) }
}

/// A well-formed name of a nonterminal.
pub open spec fn valid_name(n: Seq<u8>) -> bool {
    n.len() >= 1 && is_upper(n[0]) && forall|k: int| 0 <= k < n.len() ==> is_name_char(#[trigger] n[k])
}

/// Pieces as parsing produces them: literals are not empty, hold no `\`,
/// and never follow each other; names are well formed.
pub open spec fn normalized(parts: Seq<PartView>) -> bool {
    &&& forall|k: int| 0 <= k < parts.len() ==> match #[trigger] parts[k] {
        PartView::Literal(l) => l.len() > 0 && forall|j: int| 0 <= j < l.len() ==> #[trigger] l[j] != 92,
        PartView::Nonterminal(n) => valid_name(n),
    }
    &&& forall|k: int| 0 <= k < parts.len() - 1 ==> !(#[trigger] parts[k] is Literal && parts[k + 1] is Literal)
}

proof fn lemma_unescape_open(l: Seq<u8>)
    requires
        forall|j: int| 0 <= j < l.len() ==> #[trigger] l[j] != 92,
    ensures
        unescape_one(escape_lit(l), 123) == escape_close(l),
    decreases l.len(),
{
    if l.len() > 0 {
        let rest = l.drop_first();
        assert forall|j: int| 0 <= j < rest.len() implies #[trigger] rest[j] != 92 by {
            assert(rest[j] == l[j + 1]);
        }
        lemma_unescape_open(rest);
        let e = escape_lit(l);
        let er = escape_lit(rest);
        let c = l[0];
        if c == 123 {
            assert(e == seq![92u8, 123u8] + er);
            assert(e.subrange(2, e.len() as int) =~= er);
        } else if c == 125 {
            assert(e == seq![92u8, 125u8] + er);
            assert(e.subrange(1, e.len() as int) =~= seq![125u8] + er);
            let t = seq![125u8] + er;
            assert(unescape_one(e, 123) == seq![92u8] + unescape_one(t, 123));
            if t.len() >= 2 {
                assert(t.subrange(1, t.len() as int) =~= er);
                assert(unescape_one(t, 123) == seq![125u8] + unescape_one(er, 123));
            } else {
                assert(er.len() == 0);
                assert(unescape_one(er, 123) =~= er);
                assert(unescape_one(t, 123) == t);
                assert(t =~= seq![125u8] + unescape_one(er, 123));
            }
            assert(escape_close(l) == seq![92u8, 125u8] + escape_close(rest));
            assert(unescape_one(e, 123) =~= escape_close(l));
        } else {
            assert(e == seq![c] + er);
            if e.len() >= 2 {
                assert(e.subrange(1, e.len() as int) =~= er);
            } else {
                assert(er.len() == 0);
                assert(unescape_one(er, 123) =~= er);
            }
            assert(unescape_one(e, 123) =~= escape_close(l));
        }
    } else {
        assert(escape_lit(l) =~= Seq::<u8>::empty());
    }
}

proof fn lemma_unescape_close(l: Seq<u8>)
    requires
        forall|j: int| 0 <= j < l.len() ==> #[trigger] l[j] != 92,
    ensures
        unescape_one(escape_close(l), 125) == l,
    decreases l.len(),
{
    if l.len() > 0 {
        let rest = l.drop_first();
        assert forall|j: int| 0 <= j < rest.len() implies #[trigger] rest[j] != 92 by {
            assert(rest[j] == l[j + 1]);
        }
        lemma_unescape_close(rest);
        let e = escape_close(l);
        let er = escape_close(rest);
        let c = l[0];
        if c == 125 {
            assert(e == seq![92u8, 125u8] + er);
            assert(e.subrange(2, e.len() as int) =~= er);
            assert(unescape_one(e, 125) =~= l);
        } else {
            assert(e == seq![c] + er);
            if e.len() >= 2 {
                assert(e.subrange(1, e.len() as int) =~= er);
            } else {
                assert(er.len() == 0);
                assert(unescape_one(er, 125) =~= er);
            }
            assert(unescape_one(e, 125) =~= l);
        }
    } else {
        assert(escape_close(l) =~= Seq::<u8>::empty());
    }
}

/// The literal run over an escaped literal ends where the literal's text
/// ends, when that is the end of the format or an opening brace.
proof fn lemma_literal_end_escaped(f: Seq<u8>, i: int, l: Seq<u8>)
    requires
        0 <= i,
        i + escape_lit(l).len() <= f.len(),
        f.subrange(i, i + escape_lit(l).len()) == escape_lit(l),
        forall|j: int| 0 <= j < l.len() ==> #[trigger] l[j] != 92,
        i + escape_lit(l).len() == f.len() || f[i + escape_lit(l).len()] == 123,
    ensures
        literal_end(f, i) == i + escape_lit(l).len(),
    decreases l.len(),
{
    let e = escape_lit(l);
    if l.len() > 0 {
        let rest = l.drop_first();
        assert forall|j: int| 0 <= j < rest.len() implies #[trigger] rest[j] != 92 by {
            assert(rest[j] == l[j + 1]);
        }
        let c = l[0];
        let w: int = if c == 123 || c == 125 { 2 } else { 1 };
        let er = escape_lit(rest);
        assert(e == (if c == 123 || c == 125 { seq![92u8, c] } else { seq![c] }) + er);
        assert(f[i] == e[0]);
        if w == 2 {
            assert(f[i + 1] == e[1]);
        }
        assert(f.subrange(i + w, i + w + er.len()) =~= er) by {
            assert forall|k: int| 0 <= k < er.len() implies f.subrange(i + w, i + w + er.len())[k] == er[k] by {
                assert(f[i + w + k] == f.subrange(i, i + e.len())[w + k]);
                assert(e[w + k] == er[k]);
            }
        }
        lemma_literal_end_escaped(f, i + w, rest);
    } else {
        assert(e.len() == 0);
    }
}

proof fn lemma_scan_name(f: Seq<u8>, j: int, end: int)
    requires
        0 <= j <= end < f.len(),
        f[end] == 125,
        forall|k: int| j <= k < end ==> is_name_char(#[trigger] f[k]),
    ensures
        scan_close(f, j) == end,
    decreases end - j,
{
    if j < end {
        assert(is_name_char(f[j]));
        lemma_scan_name(f, j + 1, end);
    }
}

proof fn lemma_colon_free(n: Seq<u8>, j: int)
    requires
        0 <= j <= n.len(),
        forall|k: int| 0 <= k < n.len() ==> is_name_char(#[trigger] n[k]),
    ensures
        colon_at(n, j) == n.len(),
    decreases n.len() - j,
{
    if j < n.len() {
        assert(is_name_char(n[j]));
        lemma_colon_free(n, j + 1);
    }
}

proof fn lemma_parse_emit(p: Seq<u8>, parts: Seq<PartView>)
    requires
        normalized(parts),
    ensures
        parse_from(p + emit(parts), p.len() as int) == Some(parts),
    decreases parts.len(),
{
    let f = p + emit(parts);
    let i = p.len() as int;
    if parts.len() == 0 {
        assert(parts =~= Seq::<PartView>::empty());
    } else {
        let x = parts[0];
        let rest = parts.drop_first();
        let t = part_text(x);
        assert(emit(parts) == t + emit(rest));
        let p2 = p + t;
        assert(f =~= p2 + emit(rest));
        assert(normalized(rest)) by {
            assert forall|k: int| 0 <= k < rest.len() implies match #[trigger] rest[k] {
                PartView::Literal(l) => l.len() > 0 && forall|j: int| 0 <= j < l.len() ==> #[trigger] l[j] != 92,
                PartView::Nonterminal(n) => valid_name(n),
            } by {
                assert(rest[k] == parts[k + 1]);
            }
            assert forall|k: int| 0 <= k < rest.len() - 1 implies !(#[trigger] rest[k] is Literal && rest[k + 1] is Literal) by {
                assert(rest[k] == parts[k + 1]);
                assert(rest[k + 1] == parts[k + 2]);
            }
        }
        lemma_parse_emit(p2, rest);
        assert(f.subrange(i, i + t.len()) =~= t);
        match x {
            PartView::Nonterminal(n) => {
                assert(valid_name(n));
                let end = i + 1 + n.len();
                assert(f[i] == 123);
                assert(f[end] == 125);
                assert forall|k: int| i + 1 <= k < end implies is_name_char(#[trigger] f[k]) by {
                    assert(f[k] == n[k - i - 1]);
                }
                lemma_scan_name(f, i + 1, end);
                assert(ref_len(f, i) == n.len() + 2);
                assert(f.subrange(i + 1, i + n.len() + 1) =~= n);
                lemma_colon_free(n, 0);
                assert(n.subrange(0, n.len() as int) =~= n);
                assert(ref_name(n) == Some(n));
                assert(i + n.len() + 2 == p2.len());
                assert(seq![PartView::Nonterminal(n)] + rest =~= parts);
            },
            PartView::Literal(l) => {
                assert(l.len() > 0);
                let c = l[0];
                assert(t == (if c == 123 || c == 125 { seq![92u8, c] } else { seq![c] }) + escape_lit(l.drop_first()));
                assert(f[i] == t[0]);
                assert(f[i] != 123);
                if rest.len() > 0 {
                    assert(!(parts[0] is Literal && parts[1] is Literal));
                    assert(rest[0] == parts[1]);
                    let n = match rest[0] { PartView::Nonterminal(n) => n, _ => Seq::empty() };
                    assert(emit(rest) == part_text(rest[0]) + emit(rest.drop_first()));
                    assert(f[i + t.len()] == emit(rest)[0]);
                }
                lemma_literal_end_escaped(f, i, l);
                lemma_unescape_open(l);
                lemma_unescape_close(l);
                assert(seq![PartView::Literal(l)] + rest =~= parts);
            },
        }
    }
}

/// Writing normalized pieces out as a format and parsing that format gives
/// back the same pieces.
pub proof fn lemma_format_round_trip(parts: Seq<PartView>)
    requires
        normalized(parts),
    ensures
        parse_from(emit(parts), 0) == Some(parts),
{
    lemma_parse_emit(Seq::empty(), parts);
    assert(Seq::<u8>::empty() + emit(parts) =~= emit(parts));
}

} // verus!
