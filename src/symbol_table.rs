use vstd::prelude::*;
use vstd::set_lib::{lemma_int_range, lemma_subset_equality, set_int_range};

use crate::error::FstError;
use crate::Label;

verus! {

/// The labels of `pairs` are `0..n` for `n` pairs, each given once.
pub open spec fn labels_permute(pairs: Seq<(String, usize)>) -> bool {
    &&& forall|i: int| 0 <= i < pairs.len() ==> #[trigger] pairs[i].1 < pairs.len()
    &&& forall|i: int, j: int| 0 <= i < j < pairs.len() ==> #[trigger] pairs[i].1 != #[trigger] pairs[j].1
}

/// Some pair of `pairs` has label `l`.
pub open spec fn is_label_of(pairs: Seq<(String, usize)>, l: int) -> bool {
    exists|j: int| 0 <= j < pairs.len() && #[trigger] pairs[j].1 == l
}

/// The contents of an optional table.
pub open spec fn symt_opt_view(t: Option<SymbolTable>) -> Option<Seq<Seq<char>>> {
    match t {
        Some(x) => Some(x@),
        None => None,
    }
}

/// Copies an optional table.
pub fn copy_symt_opt(t: &Option<SymbolTable>) -> (r: Option<SymbolTable>)
    ensures
        symt_opt_view(r) == symt_opt_view(*t),
{
    match t {
        Some(x) => Some(x.duplicate()),
        None => None,
    }
}

/// The characters of the epsilon symbol, `<eps>`.
pub open spec fn eps_chars() -> Seq<char> {
    seq!['<', 'e', 'p', 's', '>']
}

/// `l` is the first label of `sym` in `syms`.
pub open spec fn is_first_label(syms: Seq<Seq<char>>, sym: Seq<char>, l: int) -> bool {
    &&& 0 <= l < syms.len()
    &&& syms[l] == sym
    &&& forall|j: int| 0 <= j < l ==> syms[j] != sym
}

/// The symbols of `syms` without repetition, in order of their first label.
pub open spec fn distinct_symbols(syms: Seq<Seq<char>>) -> Seq<Seq<char>>
    decreases syms.len(),
{
    if syms.len() == 0 {
        Seq::empty()
    } else {
        distinct_symbols(syms.drop_last()) + if syms.drop_last().contains(syms.last()) {
            Seq::empty()
        } else {
            seq![syms.last()]
        }
    }
}

/// The decimal digit `d`.
pub open spec fn digit_char(d: nat) -> char {
    if d == 0 { '0' } else if d == 1 { '1' } else if d == 2 { '2' } else if d == 3 { '3' }
    else if d == 4 { '4' } else if d == 5 { '5' } else if d == 6 { '6' } else if d == 7 { '7' }
    else if d == 8 { '8' } else { '9' }
}

/// The decimal writing of `n`, without leading zeros.
pub open spec fn decimal(n: nat) -> Seq<char>
    decreases n,
{
    if n < 10 {
        seq![digit_char(n)]
    } else {
        decimal(n / 10).push(digit_char(n % 10))
    }
}

/// The text line of label `label` with symbol `sym`: `SYMBOL\tLABEL\n`.
pub open spec fn text_line(sym: Seq<char>, label: nat) -> Seq<char> {
    sym + seq!['\t'] + decimal(label) + seq!['\n']
}

/// The text form of a table: one line per label, in increasing order of label.
pub open spec fn text_of(syms: Seq<Seq<char>>) -> Seq<char>
    decreases syms.len(),
{
    if syms.len() == 0 {
        Seq::empty()
    } else {
        text_of(syms.drop_last()) + text_line(syms.last(), (syms.len() - 1) as nat)
    }
}

/// A symbol that can be written as a text line: no tab, no newline, and no leading `#`.
pub open spec fn symbol_ok(sym: Seq<char>) -> bool {
    &&& !sym.contains('\t')
    &&& !sym.contains('\n')
    &&& !(sym.len() > 0 && sym[0] == '#')
}

/// A table that has a text form: the epsilon symbol at label `0`, and every symbol writable.
pub open spec fn well_formed_symbols(syms: Seq<Seq<char>>) -> bool {
    &&& syms.len() >= 1
    &&& syms[0] == eps_chars()
    &&& forall|i: int| 0 <= i < syms.len() ==> symbol_ok(#[trigger] syms[i])
}

/// The text of `cs` from position `p` on starts with the line of label `k` and symbol `sym`.
pub open spec fn line_at(cs: Seq<char>, p: int, sym: Seq<char>, k: nat) -> bool {
    &&& 0 <= p
    &&& p + text_line(sym, k).len() <= cs.len()
    &&& cs.subrange(p, p + text_line(sym, k).len()) == text_line(sym, k)
}

proof fn lemma_decimal_digits(n: nat)
    ensures
        decimal(n).len() >= 1,
        forall|j: int| 0 <= j < decimal(n).len() ==> #[trigger] decimal(n)[j] != '\n' && decimal(n)[j] != '\t',
    decreases n,
{
    if n >= 10 {
        lemma_decimal_digits(n / 10);
    }
}

proof fn lemma_text_prefix(syms: Seq<Seq<char>>, k: int, m: int)
    requires
        0 <= k <= m <= syms.len(),
    ensures
        text_of(syms.take(m)).subrange(0, text_of(syms.take(k)).len() as int) == text_of(syms.take(k)),
        text_of(syms.take(k)).len() <= text_of(syms.take(m)).len(),
        k < m ==> text_of(syms.take(k)).len() < text_of(syms.take(m)).len(),
        k < m ==> text_of(syms.take(k + 1)) == text_of(syms.take(k)) + text_line(syms[k], k as nat),
    decreases m - k,
{
    if k < m {
        lemma_text_prefix(syms, k, m - 1);
        assert(syms.take(m).drop_last() =~= syms.take(m - 1));
        assert(syms.take(k + 1).drop_last() =~= syms.take(k));
        lemma_decimal_digits(k as nat);
        let a = text_of(syms.take(k));
        let b = text_of(syms.take(m - 1));
        assert(text_of(syms.take(m)) == b + text_line(syms[m - 1], (m - 1) as nat));
        assert(text_of(syms.take(m)).subrange(0, a.len() as int) =~= b.subrange(0, a.len() as int));
    }
}

proof fn lemma_next_line(syms: Seq<Seq<char>>, cs: Seq<char>, k: int, p: int)
    requires
        well_formed_symbols(syms),
        text_of(syms) == cs,
        0 <= k <= syms.len(),
        text_of(syms.take(k)) == cs.take(p),
        0 <= p < cs.len(),
    ensures
        k < syms.len(),
        symbol_ok(syms[k]),
        k == 0 ==> syms[k] == eps_chars(),
        line_at(cs, p, syms[k], k as nat),
{
    lemma_text_prefix(syms, k, syms.len() as int);
    assert(syms.take(syms.len() as int) =~= syms);
    assert(text_of(syms.take(k)).len() == p);
    if k == syms.len() {
        assert(p == cs.len());
    }
    lemma_text_prefix(syms, k + 1, syms.len() as int);
    lemma_text_prefix(syms, k, k + 1);
    let a = text_of(syms.take(k));
    let b = text_of(syms.take(k + 1));
    let line = text_line(syms[k], k as nat);
    assert(b == a + line);
    assert(b.len() <= cs.len());
    assert(cs.subrange(0, b.len() as int) == b);
    assert(b.subrange(a.len() as int, b.len() as int) =~= line);
    assert(cs.subrange(p, p + line.len()) =~= cs.subrange(0, b.len() as int).subrange(p, b.len() as int));
}

proof fn lemma_line_unique(cs: Seq<char>, p: int, a: Seq<char>, b: Seq<char>, k: nat)
    requires
        symbol_ok(a),
        symbol_ok(b),
        line_at(cs, p, a, k),
        line_at(cs, p, b, k),
    ensures
        a == b,
{
    let la = text_line(a, k);
    let lb = text_line(b, k);
    assert(cs[p + a.len()] == la[a.len() as int]);
    assert(cs[p + b.len()] == lb[b.len() as int]);
    if a.len() < b.len() {
        assert(cs[p + a.len()] == lb[a.len() as int]);
        assert(b.contains(b[a.len() as int]));
    } else if b.len() < a.len() {
        assert(cs[p + b.len()] == la[b.len() as int]);
        assert(a.contains(a[b.len() as int]));
    }
    assert forall|i: int| 0 <= i < a.len() implies a[i] == b[i] by {
        assert(cs[p + i] == la[i]);
        assert(cs[p + i] == lb[i]);
    }
    assert(a =~= b);
}

proof fn lemma_text_injective_prefix(s: Seq<Seq<char>>, r: Seq<Seq<char>>, k: int)
    requires
        well_formed_symbols(s),
        well_formed_symbols(r),
        text_of(r) == text_of(s),
        0 <= k <= s.len(),
        k <= r.len(),
    ensures
        s.take(k) == r.take(k),
    decreases k,
{
    if k > 0 {
        lemma_text_injective_prefix(s, r, k - 1);
        let cs = text_of(s);
        lemma_text_prefix(s, k - 1, s.len() as int);
        lemma_text_prefix(r, k - 1, r.len() as int);
        assert(s.take(s.len() as int) =~= s);
        assert(r.take(r.len() as int) =~= r);
        let p = text_of(s.take(k - 1)).len() as int;
        assert(cs.take(p) =~= cs.subrange(0, p));
        lemma_text_prefix(s, k - 1, k);
        lemma_decimal_digits((k - 1) as nat);
        lemma_next_line(s, cs, k - 1, p);
        lemma_next_line(r, cs, k - 1, p);
        lemma_line_unique(cs, p, s[k - 1], r[k - 1], (k - 1) as nat);
        assert(s.take(k) =~= s.take(k - 1).push(s[k - 1]));
        assert(r.take(k) =~= r.take(k - 1).push(r[k - 1]));
    }
}

/// A well-formed table is determined by its text: with the contracts of `text` and
/// `from_text_string`, reading back the text of a table gives that table.
pub proof fn lemma_text_round_trip(s: Seq<Seq<char>>, r: Seq<Seq<char>>)
    requires
        well_formed_symbols(s),
        well_formed_symbols(r),
        text_of(r) == text_of(s),
    ensures
        r == s,
{
    if s.len() <= r.len() {
        lemma_text_injective_prefix(s, r, s.len() as int);
        if s.len() < r.len() {
            lemma_text_prefix(r, s.len() as int, r.len() as int);
            assert(r.take(r.len() as int) =~= r);
            assert(s.take(s.len() as int) =~= s);
        }
        assert(r.take(s.len() as int) =~= r);
    } else {
        lemma_text_injective_prefix(r, s, r.len() as int);
        lemma_text_prefix(s, r.len() as int, s.len() as int);
        assert(s.take(s.len() as int) =~= s);
        assert(r.take(r.len() as int) =~= r);
    }
    assert(s.take(s.len() as int) =~= s);
}

/// Whether `pat` occurs in `cs` at position `start`.
fn matches_at(cs: &Vec<char>, start: usize, pat: &Vec<char>) -> (r: bool)
    ensures
        r == (start + pat@.len() <= cs@.len() && cs@.subrange(
            start as int,
            start + pat@.len(),
        ) == pat@),
{
    if start > cs.len() || pat.len() > cs.len() - start {
        return false;
    }
    let n = cs.len();
    let mut i: usize = 0;
    while i < pat.len()
        invariant
            n == cs@.len(),
            start + pat@.len() <= cs@.len(),
            i <= pat@.len(),
            forall|j: int| 0 <= j < i ==> cs@[start + j] == pat@[j],
        decreases pat@.len() - i,
    {
        if cs[start + i] != pat[i] {
            assert(cs@.subrange(start as int, start + pat@.len())[i as int] != pat@[i as int]);
            return false;
        }
        i = i + 1;
    }
    assert(cs@.subrange(start as int, start + pat@.len()) =~= pat@);
    true
}


/// The text made of the lines `(symbol, label)` of `lines`, in order.
pub open spec fn lines_text(lines: Seq<(Seq<char>, nat)>) -> Seq<char>
    decreases lines.len(),
{
    if lines.len() == 0 {
        Seq::empty()
    } else {
        lines_text(lines.drop_last()) + text_line(lines.last().0, lines.last().1)
    }
}

/// The lines give each label of `syms` once, with its symbol.
pub open spec fn lines_describe(lines: Seq<(Seq<char>, nat)>, syms: Seq<Seq<char>>) -> bool {
    &&& lines.len() == syms.len()
    &&& forall|i: int|
        0 <= i < lines.len() ==> (#[trigger] lines[i]).1 < syms.len() && syms[lines[i].1 as int]
            == lines[i].0
    &&& forall|i: int, j: int| 0 <= i < j < lines.len() ==> (#[trigger] lines[i]).1 != (#[trigger] lines[j]).1
}

proof fn lemma_lines_prefix(ls: Seq<(Seq<char>, nat)>, k: int, m: int)
    requires
        0 <= k <= m <= ls.len(),
    ensures
        lines_text(ls.take(m)).subrange(0, lines_text(ls.take(k)).len() as int) == lines_text(ls.take(k)),
        lines_text(ls.take(k)).len() + (m - k) <= lines_text(ls.take(m)).len(),
        k < m ==> lines_text(ls.take(k + 1)) == lines_text(ls.take(k)) + text_line(ls[k].0, ls[k].1),
    decreases m - k,
{
    if k < m {
        lemma_lines_prefix(ls, k, m - 1);
        assert(ls.take(m).drop_last() =~= ls.take(m - 1));
        assert(ls.take(k + 1).drop_last() =~= ls.take(k));
        assert(ls.take(m).last() == ls[m - 1]);
        assert(ls.take(k + 1).last() == ls[k]);
        lemma_decimal_digits(ls[m - 1].1);
        let a = lines_text(ls.take(k));
        let b = lines_text(ls.take(m - 1));
        assert(lines_text(ls.take(m)) == b + text_line(ls[m - 1].0, ls[m - 1].1));
        assert(lines_text(ls.take(m)).subrange(0, a.len() as int) =~= b.subrange(0, a.len() as int));
    }
}

proof fn lemma_lines_of_table(syms: Seq<Seq<char>>)
    ensures
        lines_text(Seq::new(syms.len(), |i: int| (syms[i], i as nat))) == text_of(syms),
    decreases syms.len(),
{
    if syms.len() > 0 {
        lemma_lines_of_table(syms.drop_last());
        assert(Seq::new(syms.len(), |i: int| (syms[i], i as nat)).drop_last() =~= Seq::new(
            syms.drop_last().len(),
            |i: int| (syms.drop_last()[i], i as nat),
        ));
    }
}

/// The number that the decimal digits `ds` write.
pub open spec fn digits_value(ds: Seq<char>) -> nat
    decreases ds.len(),
{
    if ds.len() == 0 {
        0
    } else {
        digits_value(ds.drop_last()) * 10 + (ds.last() as int - '0' as int) as nat
    }
}

proof fn lemma_digit_char(d: nat)
    requires
        d < 10,
    ensures
        digit_char(d) as int - '0' as int == d,
        '0' <= digit_char(d) <= '9',
{
}

proof fn lemma_decimal_value(n: nat)
    ensures
        digits_value(decimal(n)) == n,
        forall|j: int| 0 <= j < decimal(n).len() ==> '0' <= #[trigger] decimal(n)[j] <= '9',
        forall|k: int| 0 <= k <= decimal(n).len() ==> #[trigger] digits_value(decimal(n).take(k)) <= n,
    decreases n,
{
    lemma_digit_char(n % 10);
    let b = decimal(n);
    if n >= 10 {
        lemma_decimal_value(n / 10);
        let a = decimal(n / 10);
        assert(b.drop_last() =~= a);
        assert(b.last() == digit_char(n % 10));
        assert((n / 10) * 10 + n % 10 == n) by (nonlinear_arith);
        assert(digits_value(b) == digits_value(a) * 10 + (b.last() as int - '0' as int));
        assert forall|k: int| 0 <= k <= b.len() implies #[trigger] digits_value(b.take(k)) <= n by {
            if k < b.len() {
                assert(b.take(k) =~= a.take(k));
                assert(digits_value(a.take(k)) <= n / 10);
            } else {
                assert(b.take(k) =~= b);
            }
        }
        assert forall|j: int| 0 <= j < b.len() implies '0' <= #[trigger] b[j] <= '9' by {
            if j < a.len() {
                assert(b[j] == a[j]);
            }
        }
    } else {
        assert(b.drop_last() =~= Seq::<char>::empty());
        assert(b.last() == digit_char(n % 10));
        assert(digits_value(b) == digits_value(b.drop_last()) * 10 + (b.last() as int - '0' as int));
        assert forall|k: int| 0 <= k <= b.len() implies #[trigger] digits_value(b.take(k)) <= n by {
            if k == 0 {
                assert(b.take(k) =~= Seq::<char>::empty());
            } else {
                assert(b.take(k) =~= b);
            }
        }
    }
}

/// Reads one `SYMBOL\tLABEL\n` line at position `p` of `cs`, the label written in decimal
/// without leading zeros: its symbol, its label and the position after it.
fn parse_any_line(cs: &Vec<char>, p: usize) -> (r: Option<(Vec<char>, usize, usize)>)
    requires
        p <= cs@.len(),
    ensures
        r matches Some((sym, lab, np)) ==> symbol_ok(sym@) && line_at(cs@, p as int, sym@, lab as nat)
            && np == p + text_line(sym@, lab as nat).len(),
        forall|sym: Seq<char>, l: nat|
            symbol_ok(sym) && l <= usize::MAX && #[trigger] line_at(cs@, p as int, sym, l) ==> (r matches Some((v, lab, np))
                && v@ == sym && lab == l),
{
    let n = cs.len();
    let mut q: usize = p;
    while q < n && cs[q] != '\t' && cs[q] != '\n'
        invariant
            p <= q <= n,
            n == cs@.len(),
            forall|j: int| p <= j < q ==> cs@[j] != '\t' && cs@[j] != '\n',
        decreases n - q,
    {
        q = q + 1;
    }
    assert forall|sym2: Seq<char>, l: nat|
        symbol_ok(sym2) && #[trigger] line_at(cs@, p as int, sym2, l) implies q == p + sym2.len()
        && cs@.subrange(p as int, q as int) == sym2 && q < n && cs@[q as int] == '\t' by {
        assert(cs@.subrange(p as int, p + text_line(sym2, l).len())[sym2.len() as int] == '\t');
        assert(cs@[p + sym2.len()] == '\t');
        if q < p + sym2.len() {
            assert(cs@.subrange(p as int, p + text_line(sym2, l).len())[q - p] == sym2[q - p]);
            assert(sym2.contains(cs@[q as int]));
        }
        assert(cs@.subrange(p as int, q as int) =~= cs@.subrange(p as int, p + text_line(sym2, l).len()).subrange(0, sym2.len() as int));
    }
    if q >= n || cs[q] != '\t' {
        return None;
    }
    let mut sym: Vec<char> = Vec::new();
    let mut j: usize = p;
    while j < q
        invariant
            p <= j <= q < n,
            n == cs@.len(),
            sym@ == cs@.subrange(p as int, j as int),
        decreases q - j,
    {
        sym.push(cs[j]);
        assert(sym@ =~= cs@.subrange(p as int, j + 1));
        j = j + 1;
    }
    assert(!sym@.contains('\t') && !sym@.contains('\n')) by {
        if sym@.contains('\t') || sym@.contains('\n') {
            let i = choose|i: int| 0 <= i < sym@.len() && (sym@[i] == '\t' || sym@[i] == '\n');
            assert(cs@[p + i] == sym@[i]);
        }
    }
    if q > p && cs[p] == '#' {
        assert(sym@[0] == '#');
        return None;
    }
    // The digits of any line that could stand here start right after the tab.
    assert forall|sym2: Seq<char>, l: nat|
        symbol_ok(sym2) && #[trigger] line_at(cs@, p as int, sym2, l) implies
        q + 1 + decimal(l).len() < n && cs@.subrange(q + 1, q + 1 + decimal(l).len()) == decimal(l)
        && cs@[q + 1 + decimal(l).len()] == '\n' by {
        let line = text_line(sym2, l);
        let sub = cs@.subrange(p as int, p + line.len());
        assert(cs@.subrange(q + 1, q + 1 + decimal(l).len()) =~= sub.subrange((sym2.len() + 1) as int, (sym2.len() + 1 + decimal(l).len()) as int));
        assert(sub.subrange((sym2.len() + 1) as int, (sym2.len() + 1 + decimal(l).len()) as int) =~= decimal(l));
        assert(sub[line.len() - 1] == '\n');
    }
    // The label's value; `matches_at` below checks that it is written canonically.
    let mut v: usize = 0;
    let mut e: usize = q + 1;
    while e < n && '0' <= cs[e] && cs[e] <= '9'
        invariant
            q < e <= n,
            q < n,
            n == cs@.len(),
            v == digits_value(cs@.subrange(q + 1, e as int)),
            forall|sym2: Seq<char>, l: nat|
                symbol_ok(sym2) && #[trigger] line_at(cs@, p as int, sym2, l) ==> e <= q + 1 + decimal(l).len(),
            forall|sym2: Seq<char>, l: nat|
                symbol_ok(sym2) && #[trigger] line_at(cs@, p as int, sym2, l) ==> q + 1 + decimal(l).len() < n
                && cs@.subrange(q + 1, q + 1 + decimal(l).len()) == decimal(l) && cs@[q + 1 + decimal(l).len()] == '\n',
        decreases n - e,
    {
        let d = (cs[e] as u32 - '0' as u32) as usize;
        assert(cs@.subrange(q + 1, e + 1).drop_last() =~= cs@.subrange(q + 1, e as int));
        assert forall|sym2: Seq<char>, l: nat|
            symbol_ok(sym2) && #[trigger] line_at(cs@, p as int, sym2, l) implies e < q + 1 + decimal(l).len()
            && digits_value(cs@.subrange(q + 1, e + 1)) <= l by {
            if e == q + 1 + decimal(l).len() {
                assert(cs@[e as int] == '\n');
            }
            lemma_decimal_value(l);
            assert(cs@.subrange(q + 1, e + 1) =~= decimal(l).take(e + 1 - (q + 1)));
        }
        if v > (usize::MAX - d) / 10 {
            assert forall|sym2: Seq<char>, l: nat|
                symbol_ok(sym2) && l <= usize::MAX && #[trigger] line_at(cs@, p as int, sym2, l) implies false by {
                assert(digits_value(cs@.subrange(q + 1, e + 1)) == v * 10 + d);
            }
            return None;
        }
        v = v * 10 + d;
        e = e + 1;
    }
    assert forall|sym2: Seq<char>, l: nat|
        symbol_ok(sym2) && #[trigger] line_at(cs@, p as int, sym2, l) implies e == q + 1 + decimal(l).len()
        && v == l by {
        lemma_decimal_value(l);
        if e < q + 1 + decimal(l).len() {
            assert(cs@[e as int] == decimal(l)[e - (q + 1)]);
        }
        assert(cs@.subrange(q + 1, e as int) =~= decimal(l));
    }
    let mut dec: Vec<char> = Vec::new();
    push_decimal(&mut dec, v);
    let ghost digits = dec@;
    dec.push('\n');
    let d0 = q + 1;
    assert(digits == decimal(v as nat));
    if !matches_at(cs, d0, &dec) {
        assert forall|sym2: Seq<char>, l: nat|
            symbol_ok(sym2) && l <= usize::MAX && #[trigger] line_at(cs@, p as int, sym2, l) implies false by {
            assert(v == l);
            assert(cs@.subrange(q + 1, q + 1 + decimal(l).len()) == decimal(l));
            assert(cs@.subrange(d0 as int, d0 + dec@.len()) =~= cs@.subrange(q + 1, q + 1 + decimal(l).len()).push(
                cs@[q + 1 + decimal(l).len()],
            ));
        }
        return None;
    }
    assert(cs@.subrange(d0 as int, d0 + dec@.len()) == digits.push('\n'));
    assert(cs@.subrange(p as int, d0 + dec@.len()) =~= cs@.subrange(p as int, q as int) + seq![cs@[q as int]]
        + cs@.subrange(d0 as int, d0 + dec@.len()));
    assert(cs@.subrange(p as int, d0 + dec@.len()) =~= text_line(sym@, v as nat));
    Some((sym, v, d0 + dec.len()))
}

/// Relies on `String: FromIterator<char>`: the string holds the characters in order.
#[verifier::external_body]
fn string_from_chars(cs: &Vec<char>) -> (r: String)
    ensures
        r@ == cs@,
{
    cs.iter().collect()
}

/// The characters of `s`, in order.
fn chars_of(s: &str) -> (r: Vec<char>)
    ensures
        r@ == s@,
{
    let mut v: Vec<char> = Vec::new();
    for c in it: s.chars()
        invariant
            it.seq() == s@,
            v@ == it.seq().take(it.index() as int),
    {
        v.push(c);
        assert(v@ =~= it.seq().take(it.index() + 1));
    }
    assert(v@ =~= s@);
    v
}

/// The decimal digit `d` as a character.
fn digit(d: usize) -> (r: char)
    requires
        d < 10,
    ensures
        r == digit_char(d as nat),
{
    if d == 0 { '0' } else if d == 1 { '1' } else if d == 2 { '2' } else if d == 3 { '3' }
    else if d == 4 { '4' } else if d == 5 { '5' } else if d == 6 { '6' } else if d == 7 { '7' }
    else if d == 8 { '8' } else { '9' }
}

/// Appends the decimal writing of `n` to `out`.
fn push_decimal(out: &mut Vec<char>, n: usize)
    ensures
        final(out)@ == old(out)@ + decimal(n as nat),
    decreases n,
{
    if n >= 10 {
        push_decimal(out, n / 10);
    }
    out.push(digit(n % 10));
    assert(final(out)@ =~= old(out)@ + decimal(n as nat)) by {
        if n >= 10 {
            assert(decimal(n as nat) == decimal((n / 10) as nat).push(digit_char((n % 10) as nat)));
        }
    }
}

/// A bidirectional map between labels and symbols. Labels are dense: the symbol added
/// by the `n`-th insertion gets label `n`, and a symbol inserted twice keeps its first
/// label when looked up. Label `0` is the epsilon symbol.
pub struct SymbolTable {
    symbols: Vec<String>,
}

impl View for SymbolTable {
    type V = Seq<Seq<char>>;

    /// The symbol of each label, by label.
    closed spec fn view(&self) -> Seq<Seq<char>> {
        self.symbols@.map_values(|s: String| s@)
    }
}

impl SymbolTable {
    /// A table that holds only the epsilon symbol, at label `0`.
    pub fn new() -> (r: Self)
        ensures
            r@ == seq![eps_chars()],
    {
        let mut symbols: Vec<String> = Vec::new();
        proof {
            reveal_strlit("<eps>");
        }
        let eps: &str = "<eps>";
        assert(eps@ =~= eps_chars());
        symbols.push(eps.to_owned());
        let r = SymbolTable { symbols };
        assert(r@ =~= seq![eps_chars()]);
        r
    }

    /// A copy of this table.
    pub fn duplicate(&self) -> (r: SymbolTable)
        ensures
            r@ == self@,
    {
        let mut symbols: Vec<String> = Vec::new();
        let mut i: usize = 0;
        while i < self.symbols.len()
            invariant
                i <= self@.len(),
                symbols@.len() == i,
                forall|j: int| 0 <= j < i ==> #[trigger] symbols@[j]@ == self@[j],
            decreases self@.len() - i,
        {
            assert(self@[i as int] == self.symbols@[i as int]@);
            symbols.push(self.symbols[i].clone());
            i = i + 1;
        }
        let r = SymbolTable { symbols };
        assert(r@ =~= self@);
        r
    }

    pub fn is_empty(&self) -> (r: bool)
        ensures
            r == (self@.len() == 0),
    {
        self.symbols.len() == 0
    }

    /// The number of labels.
    pub fn len(&self) -> (r: usize)
        ensures
            r == self@.len(),
    {
        self.symbols.len()
    }

    /// Adds `sym` under a new label, the previous number of labels, and returns that label.
    pub fn add_symbol(&mut self, sym: &str) -> (r: Label)
        requires
            old(self)@.len() < usize::MAX,
        ensures
            r == old(self)@.len(),
            final(self)@ == old(self)@.push(sym@),
    {
        let r = self.symbols.len();
        self.symbols.push(sym.to_owned());
        assert(self@ =~= old(self)@.push(sym@));
        r
    }

    /// The first label of `sym`, or `None` when the table does not hold it.
    pub fn get_label(&self, sym: &str) -> (r: Option<Label>)
        ensures
            r matches Some(l) ==> is_first_label(self@, sym@, l as int),
            r is None <==> !self@.contains(sym@),
    {
        let target = sym.to_owned();
        let mut i: usize = 0;
        while i < self.symbols.len()
            invariant
                i <= self@.len(),
                target@ == sym@,
                forall|j: int| 0 <= j < i ==> self@[j] != sym@,
            decreases self@.len() - i,
        {
            assert(self@[i as int] == self.symbols@[i as int]@);
            if self.symbols[i] == target {
                return Some(i);
            }
            i = i + 1;
        }
        None
    }

    /// The symbol of `label`, or `None` when there is no such label.
    pub fn get_symbol(&self, label: Label) -> (r: Option<&str>)
        ensures
            r is Some <==> label < self@.len(),
            r matches Some(s) ==> s@ == self@[label as int],
    {
        if label < self.symbols.len() {
            Some(self.symbols[label].as_str())
        } else {
            None
        }
    }

    pub fn contains_symbol(&self, sym: &str) -> (r: bool)
        ensures
            r == self@.contains(sym@),
    {
        self.get_label(sym).is_some()
    }

    pub fn contains_label(&self, label: Label) -> (r: bool)
        ensures
            r == (label < self@.len()),
    {
        self.get_symbol(label).is_some()
    }

    /// Reserves room for `additional` more symbols; the contents are unchanged.
    pub fn reserve(&mut self, additional: usize)
        ensures
            final(self)@ == old(self)@,
    {
        self.symbols.reserve(additional);
    }

    /// All labels, in increasing order.
    pub fn labels(&self) -> (r: Vec<Label>)
        ensures
            r@.len() == self@.len(),
            forall|i: int| 0 <= i < r@.len() ==> r@[i] == i,
    {
        let mut r: Vec<Label> = Vec::new();
        let mut i: usize = 0;
        while i < self.symbols.len()
            invariant
                i <= self@.len(),
                r@.len() == i,
                forall|j: int| 0 <= j < i ==> r@[j] == j,
            decreases self@.len() - i,
        {
            r.push(i);
            i = i + 1;
        }
        r
    }

    /// The symbols of the table without repetition, in order of their first label.
    pub fn symbols(&self) -> (r: Vec<String>)
        ensures
            r@.map_values(|s: String| s@) == distinct_symbols(self@),
    {
        let mut r: Vec<String> = Vec::new();
        let mut i: usize = 0;
        while i < self.symbols.len()
            invariant
                i <= self@.len(),
                r@.map_values(|s: String| s@) == distinct_symbols(self@.take(i as int)),
            decreases self@.len() - i,
        {
            let sym = self.symbols[i].as_str();
            let first = self.get_label(sym);
            assert(self@.take(i + 1).drop_last() =~= self@.take(i as int));
            assert(self@.take(i + 1).last() == self@[i as int]);
            proof {
                if self@.take(i as int).contains(self@[i as int]) {
                    let j = choose|j: int| 0 <= j < i && self@.take(i as int)[j] == self@[i as int];
                    assert(self@[j] == self@[i as int]);
                } else {
                    assert forall|j: int| 0 <= j < i implies self@[j] != self@[i as int] by {
                        assert(self@.take(i as int)[j] == self@[j]);
                    }
                }
            }
            if first == Some(i) {
                let ghost before = r@;
                r.push(self.symbols[i].clone());
                assert(r@.map_values(|s: String| s@) =~= before.map_values(|s: String| s@).push(
                    self@[i as int],
                ));
            }
            i = i + 1;
        }
        assert(self@.take(self@.len() as int) =~= self@);
        r
    }

    /// Every label with its symbol, in increasing order of label.
    pub fn iter(&self) -> (r: Vec<(Label, String)>)
        ensures
            r@.len() == self@.len(),
            forall|i: int| 0 <= i < r@.len() ==> (#[trigger] r@[i]).0 == i && r@[i].1@ == self@[i],
    {
        let mut r: Vec<(Label, String)> = Vec::new();
        let mut i: usize = 0;
        while i < self.symbols.len()
            invariant
                i <= self@.len(),
                r@.len() == i,
                forall|j: int| 0 <= j < i ==> (#[trigger] r@[j]).0 == j && r@[j].1@ == self@[j],
            decreases self@.len() - i,
        {
            assert(self@[i as int] == self.symbols@[i as int]@);
            let c = self.symbols[i].clone();
            assert(c@ == self@[i as int]);
            r.push((i, c));
            i = i + 1;
        }
        r
    }

    /// The text form: one `SYMBOL\tLABEL\n` line per label, in increasing order of label.
    pub fn text(&self) -> (r: Result<String, FstError>)
        ensures
            r matches Ok(t) && t@ == text_of(self@),
    {
        let mut out: Vec<char> = Vec::new();
        let mut i: usize = 0;
        while i < self.symbols.len()
            invariant
                i <= self@.len(),
                out@ == text_of(self@.take(i as int)),
            decreases self@.len() - i,
        {
            let cs = chars_of(self.symbols[i].as_str());
            assert(cs@ == self@[i as int]);
            let mut j: usize = 0;
            let ghost start = out@;
            while j < cs.len()
                invariant
                    j <= cs@.len(),
                    out@ == start + cs@.take(j as int),
                decreases cs@.len() - j,
            {
                out.push(cs[j]);
                assert(out@ =~= start + cs@.take(j + 1));
                j = j + 1;
            }
            out.push('\t');
            push_decimal(&mut out, i);
            out.push('\n');
            assert(self@.take(i + 1).drop_last() =~= self@.take(i as int));
            assert(cs@.take(cs@.len() as int) =~= cs@);
            assert(out@ =~= text_of(self@.take(i + 1)));
            i = i + 1;
        }
        assert(self@.take(self@.len() as int) =~= self@);
        Ok(string_from_chars(&out))
    }

    /// Builds a table from `(symbol, label)` pairs given in any order: pair `i` puts its
    /// symbol at its label. Fails unless the labels are `0..n` for `n` pairs, each once.
    pub fn from_parsed_symt_text(pairs: Vec<(String, Label)>) -> (r: Result<SymbolTable, FstError>)
        ensures
            r is Ok <==> labels_permute(pairs@),
            r matches Ok(t) ==> t@.len() == pairs@.len() && (forall|i: int|
                0 <= i < pairs@.len() ==> t@[#[trigger] pairs@[i].1 as int] == pairs@[i].0@),
            r matches Ok(t) ==> forall|l: int| 0 <= l < t@.len() ==> #[trigger] is_label_of(pairs@, l),
            r is Err ==> r matches Err(FstError::InvalidFormat(_)),
    {
        let n = pairs.len();
        let mut slots: Vec<Option<String>> = Vec::new();
        let mut l: usize = 0;
        while l < n
            invariant
                l <= n,
                slots@.len() == l,
                forall|m: int| 0 <= m < l ==> #[trigger] slots@[m] is None,
            decreases n - l,
        {
            slots.push(None);
            l = l + 1;
        }
        let mut k: usize = 0;
        while k < n
            invariant
                n == pairs@.len(),
                k <= n,
                slots@.len() == n,
                forall|j: int| 0 <= j < k ==> #[trigger] pairs@[j].1 < n,
                forall|j1: int, j2: int| 0 <= j1 < j2 < k ==> #[trigger] pairs@[j1].1 != #[trigger] pairs@[j2].1,
                forall|m: int| 0 <= m < n ==> (#[trigger] slots@[m] is Some <==> exists|j: int| 0 <= j < k && #[trigger] pairs@[j].1 == m),
                forall|j: int| 0 <= j < k ==> ((#[trigger] slots@[pairs@[j].1 as int]) matches Some(x) && x@ == pairs@[j].0@),
            decreases n - k,
        {
            let lab = pairs[k].1;
            if lab >= n {
                assert(!labels_permute(pairs@)) by {
                    assert(pairs@[k as int].1 >= pairs@.len());
                }
                return Err(FstError::InvalidFormat("symbol label out of range".to_owned()));
            }
            if slots[lab].is_some() {
                assert(!labels_permute(pairs@)) by {
                    let j = choose|j: int| 0 <= j < k && #[trigger] pairs@[j].1 == lab;
                    assert(pairs@[j].1 == pairs@[k as int].1);
                }
                return Err(FstError::InvalidFormat("symbol label given twice".to_owned()));
            }
            let ghost before = slots@;
            slots.set(lab, Some(pairs[k].0.clone()));
            assert forall|m: int| 0 <= m < n implies (#[trigger] slots@[m] is Some <==> exists|j: int| 0 <= j < k + 1 && #[trigger] pairs@[j].1 == m) by {
                if m == lab {
                    assert(pairs@[k as int].1 == m);
                } else {
                    assert(slots@[m] == before[m]);
                    if exists|j: int| 0 <= j < k + 1 && #[trigger] pairs@[j].1 == m {
                        let j = choose|j: int| 0 <= j < k + 1 && #[trigger] pairs@[j].1 == m;
                        assert(j != k);
                    }
                }
            }
            assert forall|j: int| 0 <= j < k + 1 implies ((#[trigger] slots@[pairs@[j].1 as int]) matches Some(x) && x@ == pairs@[j].0@) by {
                if j < k {
                    assert(pairs@[j].1 != pairs@[k as int].1);
                }
            }
            k = k + 1;
        }
        // The n distinct labels below n cover every label.
        proof {
            let labs = Seq::new(n as nat, |j: int| pairs@[j].1 as int);
            assert(labs.no_duplicates()) by {
                assert forall|a: int, b: int| 0 <= a < labs.len() && 0 <= b < labs.len() && a != b implies labs[a] != labs[b] by {
                    if a < b {
                        assert(pairs@[a].1 != pairs@[b].1);
                    } else {
                        assert(pairs@[b].1 != pairs@[a].1);
                    }
                }
            }
            labs.unique_seq_to_set();
            lemma_int_range(0, n as int);
            assert(labs.to_set().subset_of(set_int_range(0, n as int)));
            lemma_subset_equality(labs.to_set(), set_int_range(0, n as int));
            assert forall|m: int| 0 <= m < n implies #[trigger] is_label_of(pairs@, m) by {
                assert(set_int_range(0, n as int).contains(m));
                assert(labs.to_set().contains(m));
                let j = choose|j: int| 0 <= j < labs.len() && labs[j] == m;
                assert(pairs@[j].1 == m);
            }
            assert forall|m: int| 0 <= m < n implies #[trigger] slots@[m] is Some by {
                assert(is_label_of(pairs@, m));
                let j = choose|j: int| 0 <= j < pairs@.len() && #[trigger] pairs@[j].1 == m;
                assert(pairs@[j].1 == m);
            }
        }
        let mut symbols: Vec<String> = Vec::new();
        let mut l: usize = 0;
        while l < n
            invariant
                n == pairs@.len(),
                l <= n,
                slots@.len() == n,
                symbols@.len() == l,
                forall|m: int| 0 <= m < n ==> #[trigger] slots@[m] is Some,
                forall|m: int| 0 <= m < l ==> (slots@[m] matches Some(x) && x@ == (#[trigger] symbols@[m])@),
            decreases n - l,
        {
            match &slots[l] {
                Some(x) => {
                    symbols.push(x.clone());
                },
                None => {
                    return Err(FstError::InvalidFormat("missing label".to_owned()));
                },
            }
            l = l + 1;
        }
        let t = SymbolTable { symbols };
        assert forall|i: int| 0 <= i < pairs@.len() implies t@[#[trigger] pairs@[i].1 as int] == pairs@[i].0@ by {
            let m = pairs@[i].1 as int;
            assert(slots@[m] matches Some(x) && x@ == symbols@[m]@);
        }
        Ok(t)
    }

    /// Reads a table from text made of `SYMBOL\tLABEL\n` lines in any order, whose labels
    /// are `0..n`, each once; the symbol of label `0` is the epsilon symbol. The text that
    /// `text` writes for a well-formed table gives back that table.
    pub fn from_text_string(text: &str) -> (r: Result<SymbolTable, FstError>)
        ensures
            r matches Ok(t) ==> well_formed_symbols(t@) && exists|lines: Seq<(Seq<char>, nat)>|
                lines_text(lines) == text@ && #[trigger] lines_describe(lines, t@),
            forall|ls: Seq<(Seq<char>, nat)>, syms: Seq<Seq<char>>|
                well_formed_symbols(syms) && #[trigger] lines_describe(ls, syms) && lines_text(ls) == text@
                    ==> (r matches Ok(t) && t@ == syms),
            forall|syms: Seq<Seq<char>>|
                well_formed_symbols(syms) && text_of(syms) == text@ ==> (r matches Ok(t) && t@ == syms),
            r is Err ==> r matches Err(FstError::InvalidFormat(_)),
    {
        let r = Self::from_text_any_order(text);
        proof {
            assert forall|syms: Seq<Seq<char>>| well_formed_symbols(syms) && text_of(syms) == text@ implies (r matches Ok(t)
                && t@ == syms) by {
                let ls = Seq::new(syms.len(), |i: int| (syms[i], i as nat));
                lemma_lines_of_table(syms);
                assert(lines_describe(ls, syms));
            }
        }
        r
    }

    /// Reads a table from `SYMBOL\tLABEL\n` lines in any order.
    fn from_text_any_order(text: &str) -> (r: Result<SymbolTable, FstError>)
        ensures
            r matches Ok(t) ==> well_formed_symbols(t@) && exists|lines: Seq<(Seq<char>, nat)>|
                lines_text(lines) == text@ && #[trigger] lines_describe(lines, t@),
            forall|ls: Seq<(Seq<char>, nat)>, syms: Seq<Seq<char>>|
                well_formed_symbols(syms) && #[trigger] lines_describe(ls, syms) && lines_text(ls) == text@
                    ==> (r matches Ok(t) && t@ == syms),
            r is Err ==> r matches Err(FstError::InvalidFormat(_)),
    {
        let cs = chars_of(text);
        let n = cs.len();
        let mut pairs: Vec<(String, Label)> = Vec::new();
        let ghost mut lines: Seq<(Seq<char>, nat)> = Seq::empty();
        let mut p: usize = 0;
        while p < n
            invariant
                n == cs@.len(),
                cs@ == text@,
                p <= n,
                lines.len() == pairs@.len(),
                lines_text(lines) == cs@.take(p as int),
                forall|i: int| 0 <= i < lines.len() ==> symbol_ok(#[trigger] lines[i].0),
                forall|i: int| 0 <= i < lines.len() ==> (#[trigger] pairs@[i]).0@ == lines[i].0 && pairs@[i].1 == lines[i].1,
                forall|ls: Seq<(Seq<char>, nat)>, syms: Seq<Seq<char>>|
                    well_formed_symbols(syms) && #[trigger] lines_describe(ls, syms) && lines_text(ls) == cs@
                        ==> lines.len() <= ls.len() && lines == ls.take(lines.len() as int),
            decreases n - p,
        {
            proof {
                assert forall|ls: Seq<(Seq<char>, nat)>, syms: Seq<Seq<char>>|
                    well_formed_symbols(syms) && #[trigger] lines_describe(ls, syms) && lines_text(ls) == cs@
                    implies lines.len() < ls.len() && symbol_ok(ls[lines.len() as int].0) && ls[lines.len() as int].1 <= usize::MAX
                        && line_at(cs@, p as int, ls[lines.len() as int].0, ls[lines.len() as int].1) by {
                    let k = lines.len() as int;
                    lemma_lines_prefix(ls, k, ls.len() as int);
                    lemma_lines_prefix(ls, 0, ls.len() as int);
                    assert(ls.take(ls.len() as int) =~= ls);
                    assert(lines_text(ls.take(k)) == cs@.take(p as int));
                    if k == ls.len() {
                        assert(p == n);
                    }
                    lemma_lines_prefix(ls, k + 1, ls.len() as int);
                    lemma_lines_prefix(ls, k, k + 1);
                    let a = lines_text(ls.take(k));
                    let b = lines_text(ls.take(k + 1));
                    let line = text_line(ls[k].0, ls[k].1);
                    assert(b == a + line);
                    assert(cs@.subrange(0, b.len() as int) == b);
                    assert(b.subrange(a.len() as int, b.len() as int) =~= line);
                    assert(cs@.subrange(p as int, p + line.len()) =~= cs@.subrange(0, b.len() as int).subrange(p as int, b.len() as int));
                    assert(ls[k].1 < syms.len());
                    assert(syms[ls[k].1 as int] == ls[k].0);
                    assert(symbol_ok(syms[ls[k].1 as int]));
                }
            }
            match parse_any_line(&cs, p) {
                None => {
                    return Err(FstError::InvalidFormat("malformed symbol table line".to_owned()));
                },
                Some((sym, lab, np)) => {
                    let st = string_from_chars(&sym);
                    proof {
                        let old_lines = lines;
                        lines = lines.push((sym@, lab as nat));
                        assert(lines.drop_last() =~= old_lines);
                        assert(cs@.take(np as int) =~= cs@.take(p as int) + text_line(sym@, lab as nat));
                    }
                    pairs.push((st, lab));
                    proof {
                        assert forall|ls: Seq<(Seq<char>, nat)>, syms: Seq<Seq<char>>|
                            well_formed_symbols(syms) && #[trigger] lines_describe(ls, syms) && lines_text(ls) == cs@
                            implies lines.len() <= ls.len() && lines == ls.take(lines.len() as int) by {
                            let k = (lines.len() - 1) as int;
                            assert(line_at(cs@, p as int, ls[k].0, ls[k].1));
                            assert(lines =~= ls.take(k + 1));
                        }
                    }
                    p = np;
                },
            }
        }
        assert(cs@.take(n as int) =~= cs@);
        proof {
            assert forall|ls: Seq<(Seq<char>, nat)>, syms: Seq<Seq<char>>|
                well_formed_symbols(syms) && #[trigger] lines_describe(ls, syms) && lines_text(ls) == cs@
                implies lines == ls && labels_permute(pairs@) by {
                lemma_lines_prefix(ls, lines.len() as int, ls.len() as int);
                assert(ls.take(ls.len() as int) =~= ls);
                assert(lines =~= ls);
                assert forall|i: int| 0 <= i < pairs@.len() implies #[trigger] pairs@[i].1 < pairs@.len() by {
                    assert(ls[i].1 < syms.len());
                }
                assert forall|i: int, j: int| 0 <= i < j < pairs@.len() implies #[trigger] pairs@[i].1 != #[trigger] pairs@[j].1 by {
                    assert(ls[i].1 != ls[j].1);
                }
            }
        }
        let t = Self::from_parsed_symt_text(pairs)?;
        proof {
            assert forall|ls: Seq<(Seq<char>, nat)>, syms: Seq<Seq<char>>|
                well_formed_symbols(syms) && #[trigger] lines_describe(ls, syms) && lines_text(ls) == cs@
                implies t@ == syms by {
                assert(lines == ls);
                assert forall|l: int| 0 <= l < t@.len() implies #[trigger] t@[l] == syms[l] by {
                    assert(is_label_of(pairs@, l));
                    let j = choose|j: int| 0 <= j < pairs@.len() && #[trigger] pairs@[j].1 == l;
                    assert(t@[pairs@[j].1 as int] == pairs@[j].0@);
                    assert(syms[ls[j].1 as int] == ls[j].0);
                }
                assert(t@ =~= syms);
            }
        }
        if t.symbols.len() == 0 {
            return Err(FstError::InvalidFormat("missing epsilon entry".to_owned()));
        }
        proof {
            reveal_strlit("<eps>");
        }
        let eps: &str = "<eps>";
        assert(eps@ =~= eps_chars());
        let eps_string = eps.to_owned();
        if !(t.symbols[0] == eps_string) {
            return Err(FstError::InvalidFormat("label 0 is not the epsilon symbol".to_owned()));
        }
        proof {
            assert(t@[0] == t.symbols@[0]@);
            assert forall|l: int| 0 <= l < t@.len() implies symbol_ok(#[trigger] t@[l]) by {
                assert(is_label_of(pairs@, l));
                let j = choose|j: int| 0 <= j < pairs@.len() && #[trigger] pairs@[j].1 == l;
                assert(t@[pairs@[j].1 as int] == pairs@[j].0@);
                assert(symbol_ok(lines[j].0));
            }
            assert(lines_describe(lines, t@)) by {
                assert forall|i: int| 0 <= i < lines.len() implies lines[i].1 < t@.len() && t@[lines[i].1 as int] == lines[i].0 by {
                    assert(pairs@[i].1 < pairs@.len());
                    assert(t@[pairs@[i].1 as int] == pairs@[i].0@);
                }
                assert forall|i: int, j: int| 0 <= i < j < lines.len() implies lines[i].1 != lines[j].1 by {
                    assert(pairs@[i].1 != pairs@[j].1);
                }
            }
        }
        Ok(t)
    }

    /// Adds each symbol of `other`, without repetition and in order of its first label,
    /// under a new label.
    pub fn add_table(&mut self, other: &SymbolTable)
        requires
            old(self)@.len() + other@.len() < usize::MAX,
        ensures
            final(self)@ == old(self)@ + distinct_symbols(other@),
    {
        let syms = other.symbols();
        proof { lemma_distinct_symbols_len(other@); }
        let mut i: usize = 0;
        while i < syms.len()
            invariant
                i <= syms@.len(),
                syms@.map_values(|s: String| s@) == distinct_symbols(other@),
                syms@.len() <= other@.len(),
                old(self)@.len() + other@.len() < usize::MAX,
                self@ == old(self)@ + distinct_symbols(other@).take(i as int),
            decreases syms@.len() - i,
        {
            assert(syms@.map_values(|s: String| s@)[i as int] == syms@[i as int]@);
            self.add_symbol(syms[i].as_str());
            assert(self@ =~= old(self)@ + distinct_symbols(other@).take(i + 1));
            i = i + 1;
        }
        assert(distinct_symbols(other@).take(syms@.len() as int) =~= distinct_symbols(other@));
    }
}

pub proof fn lemma_distinct_symbols_len(syms: Seq<Seq<char>>)
    ensures
        distinct_symbols(syms).len() <= syms.len(),
    decreases syms.len(),
{
    if syms.len() > 0 {
        lemma_distinct_symbols_len(syms.drop_last());
    }
}

} // verus!
