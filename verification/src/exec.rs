//! The DNA rewriter: pattern and template parsing, matching, quoting
//! and splicing, and the driver that iterates them.

use vstd::prelude::*;

use crate::base::{byte_is_base, byte_to_base, to_base_vec, Base};
use crate::dna::{
    chunk_view, chunk_wf, chunks_view, chunks_wf, slice_view, slice_wf, DNAChunk, DNASlice, DNA,
};

verus! {

/// One item of a parsed pattern.
#[derive(Debug, PartialEq)]
pub enum PatternItem {
    /// Match one literal base.
    Base(Base),
    /// Advance the cursor by a count.
    Skip(u32),
    /// Advance past the next occurrence of a literal run.
    Search(Vec<Base>),
    GroupOpen,
    GroupClose,
}

#[derive(Debug, PartialEq)]
pub struct Pattern(pub Vec<PatternItem>);

/// One item of a parsed template.
#[derive(Debug, PartialEq, Copy, Clone)]
pub enum TemplateItem {
    /// Splice one literal base.
    Base(Base),
    /// Expand captured group `.0`, quoted `.1` times.
    Ref(u32, u32),
    /// Splice the encoded length of captured group `.0`.
    Length(u32),
}

#[derive(Debug, PartialEq)]
pub struct Template(pub Vec<TemplateItem>);

/// The mathematical shape of a pattern item: counts are unbounded and
/// literal runs are sequences.
pub enum PatItem {
    Base(Base),
    Skip(nat),
    Search(Seq<Base>),
    Open,
    Close,
}

pub enum TplItem {
    Base(Base),
    Ref(nat, nat),
    Length(nat),
}

impl View for PatternItem {
    type V = PatItem;

    open spec fn view(&self) -> PatItem {
        match self {
            PatternItem::Base(b) => PatItem::Base(*b),
            PatternItem::Skip(n) => PatItem::Skip(*n as nat),
            PatternItem::Search(s) => PatItem::Search(s@),
            PatternItem::GroupOpen => PatItem::Open,
            PatternItem::GroupClose => PatItem::Close,
        }
    }
}

impl View for Pattern {
    type V = Seq<PatItem>;

    open spec fn view(&self) -> Seq<PatItem> {
        self.0@.map_values(|it: PatternItem| it@)
    }
}

impl View for TemplateItem {
    type V = TplItem;

    open spec fn view(&self) -> TplItem {
        match self {
            TemplateItem::Base(b) => TplItem::Base(*b),
            TemplateItem::Ref(n, l) => TplItem::Ref(*n as nat, *l as nat),
            TemplateItem::Length(n) => TplItem::Length(*n as nat),
        }
    }
}

impl View for Template {
    type V = Seq<TplItem>;

    open spec fn view(&self) -> Seq<TplItem> {
        self.0@.map_values(|it: TemplateItem| it@)
    }
}

/// Counts reaching a 32-bit register wrap around.
pub open spec fn nat_mod32(v: nat) -> nat {
    v % 0x1_0000_0000
}

/// The index of the first `P` in a sequence, which terminates an
/// encoded natural number.
pub open spec fn first_p(s: Seq<Base>) -> Option<int>
    decreases s.len(),
{
    if s.len() == 0 {
        None
    } else if s[0] == Base::P {
        Some(0)
    } else {
        match first_p(s.drop_first()) {
            None => None,
            Some(i) => Some(i + 1),
        }
    }
}

/// The value of a run of bases read as bits, least significant first:
/// `C` is one, anything else is zero.
pub open spec fn bits_value(s: Seq<Base>) -> nat
    decreases s.len(),
{
    if s.len() == 0 {
        0
    } else {
        (if s[0] == Base::C {
            1nat
        } else {
            0nat
        }) + 2 * bits_value(s.drop_first())
    }
}

/// Parsing a natural from the front: bases up to the first `P` are
/// bits, least significant first. Returns the value and how many
/// bases were consumed, or nothing when the sequence holds no `P`.
pub open spec fn parse_nat(s: Seq<Base>) -> Option<(nat, int)> {
    match first_p(s) {
        None => None,
        Some(i) => Some((bits_value(s.take(i)), i + 1)),
    }
}

pub proof fn lemma_first_p_bounds(s: Seq<Base>)
    ensures
        match first_p(s) {
            None => forall|j: int| 0 <= j < s.len() ==> s[j] != Base::P,
            Some(i) => 0 <= i < s.len() && s[i] == Base::P && forall|j: int|
                0 <= j < i ==> s[j] != Base::P,
        },
    decreases s.len(),
{
    if s.len() > 0 && s[0] != Base::P {
        lemma_first_p_bounds(s.drop_first());
        assert(forall|j: int| 1 <= j < s.len() ==> s[j] == s.drop_first()[j - 1]);
    }
}

/// A sequence that starts with bits and then a `P` parses back to the
/// value of those bits.
pub proof fn lemma_first_p_at(s: Seq<Base>, k: int)
    requires
        0 <= k < s.len(),
        s[k] == Base::P,
        forall|j: int| 0 <= j < k ==> s[j] != Base::P,
    ensures
        first_p(s) == Some(k),
    decreases k,
{
    if k == 0 {
    } else {
        assert(forall|j: int| 0 <= j < s.drop_first().len() ==> s.drop_first()[j] == s[j + 1]);
        lemma_first_p_at(s.drop_first(), k - 1);
    }
}

pub proof fn lemma_first_p_none(s: Seq<Base>)
    requires
        forall|j: int| 0 <= j < s.len() ==> s[j] != Base::P,
    ensures
        first_p(s) == None::<int>,
    decreases s.len(),
{
    if s.len() > 0 {
        assert(forall|j: int| 0 <= j < s.drop_first().len() ==> s.drop_first()[j] == s[j + 1]);
        lemma_first_p_none(s.drop_first());
    }
}

/// Parsing a literal run: `C`, `F`, `P` and the pair `IC` map to the
/// bases they escape; any other prefix ends the run unconsumed.
pub open spec fn parse_consts(s: Seq<Base>) -> (Seq<Base>, int)
    decreases s.len(),
{
    if s.len() == 0 {
        (Seq::empty(), 0)
    } else if s[0] == Base::C {
        let (r, c) = parse_consts(s.skip(1));
        (seq![Base::I] + r, c + 1)
    } else if s[0] == Base::F {
        let (r, c) = parse_consts(s.skip(1));
        (seq![Base::C] + r, c + 1)
    } else if s[0] == Base::P {
        let (r, c) = parse_consts(s.skip(1));
        (seq![Base::F] + r, c + 1)
    } else if s.len() >= 2 && s[1] == Base::C {
        let (r, c) = parse_consts(s.skip(2));
        (seq![Base::P] + r, c + 2)
    } else {
        (Seq::empty(), 0)
    }
}

pub proof fn lemma_parse_consts_consumed(s: Seq<Base>)
    ensures
        0 <= parse_consts(s).1 <= s.len(),
    decreases s.len(),
{
    if s.len() > 0 {
        lemma_parse_consts_consumed(s.skip(1));
        if s.len() >= 2 {
            lemma_parse_consts_consumed(s.skip(2));
        }
    }
}

/// The per-base escaping: `I`, `C`, `F` shift one letter; `P` becomes
/// the pair `IC`.
pub open spec fn quote_base(b: Base) -> Seq<Base> {
    match b {
        Base::I => seq![Base::C],
        Base::C => seq![Base::F],
        Base::F => seq![Base::P],
        Base::P => seq![Base::I, Base::C],
    }
}

/// Quoting a sequence escapes each base in place.
pub open spec fn quote_seq(v: Seq<Base>) -> Seq<Base>
    decreases v.len(),
{
    if v.len() == 0 {
        Seq::empty()
    } else {
        quote_base(v[0]) + quote_seq(v.drop_first())
    }
}

pub proof fn lemma_quote_seq_push(v: Seq<Base>, b: Base)
    ensures
        quote_seq(v.push(b)) == quote_seq(v) + quote_base(b),
    decreases v.len(),
{
    if v.len() == 0 {
        let e = Seq::<Base>::empty();
        assert(v.push(b).drop_first() =~= e);
        assert(v.push(b)[0] == b);
        assert(quote_seq(v.push(b)) == quote_base(b) + quote_seq(e));
        assert(quote_seq(e).len() == 0);
        assert(quote_seq(v).len() == 0);
        assert(quote_seq(v.push(b)) =~= quote_seq(v) + quote_base(b));
    } else {
        assert(v.push(b).drop_first() =~= v.drop_first().push(b));
        lemma_quote_seq_push(v.drop_first(), b);
        assert(quote_seq(v.push(b)) =~= quote_seq(v) + quote_base(b));
    }
}

/// Protection applies the quoting `l` times.
pub open spec fn protect_seq(l: nat, v: Seq<Base>) -> Seq<Base>
    decreases l,
{
    if l == 0 {
        v
    } else {
        quote_seq(protect_seq((l - 1) as nat, v))
    }
}

/// The encoding of a natural: its bits least significant first, `C`
/// for one and `I` for zero, closed by a `P`.
pub open spec fn as_nat_seq(n: nat) -> Seq<Base>
    decreases n,
{
    if n == 0 {
        seq![Base::P]
    } else {
        seq![
            if n % 2 == 1 {
                Base::C
            } else {
                Base::I
            },
        ] + as_nat_seq(n / 2)
    }
}

/// Parsing the encoding of a natural gives the number back: the
/// encoding holds no `P` before its closing one, so the whole of it
/// is consumed and its bits recompose the value. This holds for
/// every natural, not only those a register can hold.
pub proof fn lemma_as_nat_round_trip(n: nat)
    ensures
        parse_nat(as_nat_seq(n)) == Some((n, as_nat_seq(n).len() as int)),
    decreases n,
{
    let s = as_nat_seq(n);
    if n == 0 {
        assert(s =~= seq![Base::P]);
        assert(first_p(s) == Some(0int));
        assert(s.take(0) =~= Seq::<Base>::empty());
        assert(bits_value(s.take(0)) == 0);
    } else {
        lemma_as_nat_round_trip(n / 2);
        let t = as_nat_seq(n / 2);
        let b = if n % 2 == 1 {
            Base::C
        } else {
            Base::I
        };
        assert(s == seq![b] + t);
        assert(s[0] == b);
        assert(b != Base::P);
        assert(s.drop_first() =~= t);
        assert(first_p(t) == Some(t.len() - 1));
        assert(first_p(s) == Some(t.len() as int));
        assert(s.len() == t.len() + 1);
        let u = s.take(t.len() as int);
        assert(u[0] == b);
        assert(u.drop_first() =~= t.take(t.len() - 1));
        assert(bits_value(u) == (if b == Base::C {
            1nat
        } else {
            0nat
        }) + 2 * bits_value(t.take(t.len() - 1)));
        assert(bits_value(t.take(t.len() - 1)) == n / 2);
        assert(bits_value(u) == n % 2 + 2 * (n / 2));
    }
}

proof fn lemma_quote_len(v: Seq<Base>)
    ensures
        quote_seq(v).len() >= v.len(),
    decreases v.len(),
{
    if v.len() > 0 {
        lemma_quote_len(v.drop_first());
    }
}

/// Quoting is injective on base sequences: the first quoted symbol
/// pins down the first base, and the rest follows by induction.
pub proof fn lemma_quote_injective(a: Seq<Base>, b: Seq<Base>)
    requires
        quote_seq(a) == quote_seq(b),
    ensures
        a == b,
    decreases a.len(),
{
    lemma_quote_len(a);
    lemma_quote_len(b);
    if a.len() == 0 {
        assert(quote_seq(b).len() == 0);
        assert(b.len() == 0);
        assert(a =~= b);
    } else if b.len() == 0 {
        assert(quote_seq(a).len() == 0);
        assert(false);
    } else {
        let qa = quote_base(a[0]);
        let qb = quote_base(b[0]);
        assert(quote_seq(a) == qa + quote_seq(a.drop_first()));
        assert(quote_seq(b) == qb + quote_seq(b.drop_first()));
        assert((qa + quote_seq(a.drop_first()))[0] == qa[0]);
        assert((qb + quote_seq(b.drop_first()))[0] == qb[0]);
        assert(qa[0] == qb[0]);
        assert(a[0] == b[0]) by {
            if a[0] != b[0] {
                assert(qa[0] != qb[0]);
            }
        }
        assert(qa == qb);
        assert(quote_seq(a.drop_first()) =~= (qa + quote_seq(a.drop_first())).skip(
            qa.len() as int,
        ));
        assert(quote_seq(b.drop_first()) =~= (qb + quote_seq(b.drop_first())).skip(
            qb.len() as int,
        ));
        lemma_quote_injective(a.drop_first(), b.drop_first());
        assert(a =~= seq![a[0]] + a.drop_first());
        assert(b =~= seq![b[0]] + b.drop_first());
    }
}

/// One more level of protection quotes the protected value once
/// more.
pub proof fn lemma_protect_step(l: nat, v: Seq<Base>)
    ensures
        protect_seq(l + 1, v) == quote_seq(protect_seq(l, v)),
{
}

/// What parsing a pattern from the front of a sequence yields: the
/// items, the bases emitted to the instruction stream by escapes, and
/// the unconsumed rest; or, when the sequence ran out mid parse, just
/// the emitted bases.
#[verifier::ext_equal]
pub enum PatParse {
    Done { items: Seq<PatItem>, rna: Seq<Base>, rest: Seq<Base> },
    Early { rna: Seq<Base> },
}

pub open spec fn pat_prepend(it: PatItem, r: PatParse) -> PatParse {
    match r {
        PatParse::Done { items, rna, rest } => PatParse::Done {
            items: seq![it] + items,
            rna,
            rest,
        },
        PatParse::Early { rna } => PatParse::Early { rna },
    }
}

pub open spec fn pat_prepend_rna(out: Seq<Base>, r: PatParse) -> PatParse {
    match r {
        PatParse::Done { items, rna, rest } => PatParse::Done { items, rna: out + rna, rest },
        PatParse::Early { rna } => PatParse::Early { rna: out + rna },
    }
}

/// What a partially built parse looks like from the outside: items
/// and emitted bases gathered so far, continued by the parse of the
/// rest.
pub open spec fn pat_cont(items: Seq<PatItem>, out: Seq<Base>, r: PatParse) -> PatParse {
    match r {
        PatParse::Done { items: i2, rna, rest } => PatParse::Done {
            items: items + i2,
            rna: out + rna,
            rest,
        },
        PatParse::Early { rna } => PatParse::Early { rna: out + rna },
    }
}

pub proof fn lemma_pat_cont_item(items: Seq<PatItem>, out: Seq<Base>, it: PatItem, r: PatParse)
    ensures
        pat_cont(items, out, pat_prepend(it, r)) == pat_cont(items.push(it), out, r),
{
    match r {
        PatParse::Done { items: i2, rna, rest } => {
            assert(items + (seq![it] + i2) =~= items.push(it) + i2);
            assert(pat_cont(items, out, pat_prepend(it, r)) =~= pat_cont(items.push(it), out, r));
        },
        PatParse::Early { rna } => {
            assert(pat_cont(items, out, pat_prepend(it, r)) =~= pat_cont(items.push(it), out, r));
        },
    }
}

pub proof fn lemma_pat_cont_empty(r: PatParse)
    ensures
        pat_cont(Seq::empty(), Seq::empty(), r) == r,
{
    match r {
        PatParse::Done { items: i2, rna, rest } => {
            assert(Seq::<PatItem>::empty() + i2 =~= i2);
            assert(Seq::<Base>::empty() + rna =~= rna);
            assert(pat_cont(Seq::empty(), Seq::empty(), r) =~= r);
        },
        PatParse::Early { rna } => {
            assert(Seq::<Base>::empty() + rna =~= rna);
            assert(pat_cont(Seq::empty(), Seq::empty(), r) =~= r);
        },
    }
}

pub proof fn lemma_pat_cont_rna(items: Seq<PatItem>, out: Seq<Base>, o2: Seq<Base>, r: PatParse)
    ensures
        pat_cont(items, out, pat_prepend_rna(o2, r)) == pat_cont(items, out + o2, r),
{
    match r {
        PatParse::Done { items: i2, rna, rest } => {
            assert(out + (o2 + rna) =~= (out + o2) + rna);
            assert(pat_cont(items, out, pat_prepend_rna(o2, r)) =~= pat_cont(items, out + o2, r));
        },
        PatParse::Early { rna } => {
            assert(out + (o2 + rna) =~= (out + o2) + rna);
            assert(pat_cont(items, out, pat_prepend_rna(o2, r)) =~= pat_cont(items, out + o2, r));
        },
    }
}

/// Parsing a pattern from the front. Each escape consumes the listed
/// prefix; a close escape at depth zero terminates the pattern; the
/// triple-`I` escape forwards the next seven bases to the
/// instruction stream, or drains what remains and finishes early.
pub open spec fn parse_pattern(s: Seq<Base>, depth: nat) -> PatParse
    decreases s.len(),
    via parse_pattern_dec
{
    if s.len() == 0 {
        PatParse::Early { rna: Seq::empty() }
    } else if s[0] == Base::C {
        pat_prepend(PatItem::Base(Base::I), parse_pattern(s.skip(1), depth))
    } else if s[0] == Base::F {
        pat_prepend(PatItem::Base(Base::C), parse_pattern(s.skip(1), depth))
    } else if s[0] == Base::P {
        pat_prepend(PatItem::Base(Base::F), parse_pattern(s.skip(1), depth))
    } else if s.len() < 2 {
        PatParse::Early { rna: Seq::empty() }
    } else if s[1] == Base::C {
        pat_prepend(PatItem::Base(Base::P), parse_pattern(s.skip(2), depth))
    } else if s[1] == Base::P {
        match parse_nat(s.skip(2)) {
            None => PatParse::Early { rna: Seq::empty() },
            Some((v, c)) => pat_prepend(
                PatItem::Skip(nat_mod32(v)),
                parse_pattern(s.skip(2).skip(c), depth),
            ),
        }
    } else if s[1] == Base::F {
        let t = if s.len() >= 3 {
            s.skip(3)
        } else {
            s.skip(2)
        };
        pat_prepend(
            PatItem::Search(parse_consts(t).0),
            parse_pattern(t.skip(parse_consts(t).1), depth),
        )
    } else if s.len() < 3 {
        PatParse::Early { rna: Seq::empty() }
    } else if s[2] == Base::P {
        pat_prepend(PatItem::Open, parse_pattern(s.skip(3), depth + 1))
    } else if s[2] == Base::C || s[2] == Base::F {
        if depth == 0 {
            PatParse::Done { items: Seq::empty(), rna: Seq::empty(), rest: s.skip(3) }
        } else {
            pat_prepend(PatItem::Close, parse_pattern(s.skip(3), (depth - 1) as nat))
        }
    } else {
        if s.len() < 10 {
            PatParse::Early { rna: s.skip(3) }
        } else {
            pat_prepend_rna(s.subrange(3, 10), parse_pattern(s.skip(10), depth))
        }
    }
}

#[via_fn]
proof fn parse_pattern_dec(s: Seq<Base>, depth: nat) {
    if s.len() >= 2 {
        lemma_first_p_bounds(s.skip(2));
        lemma_parse_consts_consumed(s.skip(2));
        if s.len() >= 3 {
            lemma_parse_consts_consumed(s.skip(3));
        }
    }
}

/// What parsing a template yields, in the same shape as a pattern
/// parse.
#[verifier::ext_equal]
pub enum TplParse {
    Done { items: Seq<TplItem>, rna: Seq<Base>, rest: Seq<Base> },
    Early { rna: Seq<Base> },
}

pub open spec fn tpl_prepend(it: TplItem, r: TplParse) -> TplParse {
    match r {
        TplParse::Done { items, rna, rest } => TplParse::Done {
            items: seq![it] + items,
            rna,
            rest,
        },
        TplParse::Early { rna } => TplParse::Early { rna },
    }
}

pub open spec fn tpl_prepend_rna(out: Seq<Base>, r: TplParse) -> TplParse {
    match r {
        TplParse::Done { items, rna, rest } => TplParse::Done { items, rna: out + rna, rest },
        TplParse::Early { rna } => TplParse::Early { rna: out + rna },
    }
}

pub open spec fn tpl_cont(items: Seq<TplItem>, out: Seq<Base>, r: TplParse) -> TplParse {
    match r {
        TplParse::Done { items: i2, rna, rest } => TplParse::Done {
            items: items + i2,
            rna: out + rna,
            rest,
        },
        TplParse::Early { rna } => TplParse::Early { rna: out + rna },
    }
}

pub proof fn lemma_tpl_cont_empty(r: TplParse)
    ensures
        tpl_cont(Seq::empty(), Seq::empty(), r) == r,
{
    match r {
        TplParse::Done { items: i2, rna, rest } => {
            assert(Seq::<TplItem>::empty() + i2 =~= i2);
            assert(Seq::<Base>::empty() + rna =~= rna);
            assert(tpl_cont(Seq::empty(), Seq::empty(), r) =~= r);
        },
        TplParse::Early { rna } => {
            assert(Seq::<Base>::empty() + rna =~= rna);
            assert(tpl_cont(Seq::empty(), Seq::empty(), r) =~= r);
        },
    }
}

pub proof fn lemma_tpl_cont_item(items: Seq<TplItem>, out: Seq<Base>, it: TplItem, r: TplParse)
    ensures
        tpl_cont(items, out, tpl_prepend(it, r)) == tpl_cont(items.push(it), out, r),
{
    match r {
        TplParse::Done { items: i2, rna, rest } => {
            assert(items + (seq![it] + i2) =~= items.push(it) + i2);
            assert(tpl_cont(items, out, tpl_prepend(it, r)) =~= tpl_cont(items.push(it), out, r));
        },
        TplParse::Early { rna } => {
            assert(tpl_cont(items, out, tpl_prepend(it, r)) =~= tpl_cont(items.push(it), out, r));
        },
    }
}

pub proof fn lemma_tpl_cont_rna(items: Seq<TplItem>, out: Seq<Base>, o2: Seq<Base>, r: TplParse)
    ensures
        tpl_cont(items, out, tpl_prepend_rna(o2, r)) == tpl_cont(items, out + o2, r),
{
    match r {
        TplParse::Done { items: i2, rna, rest } => {
            assert(out + (o2 + rna) =~= (out + o2) + rna);
            assert(tpl_cont(items, out, tpl_prepend_rna(o2, r)) =~= tpl_cont(items, out + o2, r));
        },
        TplParse::Early { rna } => {
            assert(out + (o2 + rna) =~= (out + o2) + rna);
            assert(tpl_cont(items, out, tpl_prepend_rna(o2, r)) =~= tpl_cont(items, out + o2, r));
        },
    }
}

/// Parsing a template from the front. A reference escape reads the
/// protect level and then the group index; the double-`I` close
/// terminates; the triple-`I` escape emits seven bases as in a
/// pattern.
pub open spec fn parse_template(s: Seq<Base>) -> TplParse
    decreases s.len(),
    via parse_template_dec
{
    if s.len() == 0 {
        TplParse::Early { rna: Seq::empty() }
    } else if s[0] == Base::C {
        tpl_prepend(TplItem::Base(Base::I), parse_template(s.skip(1)))
    } else if s[0] == Base::F {
        tpl_prepend(TplItem::Base(Base::C), parse_template(s.skip(1)))
    } else if s[0] == Base::P {
        tpl_prepend(TplItem::Base(Base::F), parse_template(s.skip(1)))
    } else if s.len() < 2 {
        TplParse::Early { rna: Seq::empty() }
    } else if s[1] == Base::C {
        tpl_prepend(TplItem::Base(Base::P), parse_template(s.skip(2)))
    } else if s[1] == Base::F || s[1] == Base::P {
        match parse_nat(s.skip(2)) {
            None => TplParse::Early { rna: Seq::empty() },
            Some((l, c1)) => match parse_nat(s.skip(2).skip(c1)) {
                None => TplParse::Early { rna: Seq::empty() },
                Some((n, c2)) => tpl_prepend(
                    TplItem::Ref(nat_mod32(n), nat_mod32(l)),
                    parse_template(s.skip(2).skip(c1).skip(c2)),
                ),
            },
        }
    } else if s.len() < 3 {
        TplParse::Early { rna: Seq::empty() }
    } else if s[2] == Base::C || s[2] == Base::F {
        TplParse::Done { items: Seq::empty(), rna: Seq::empty(), rest: s.skip(3) }
    } else if s[2] == Base::P {
        match parse_nat(s.skip(3)) {
            None => TplParse::Early { rna: Seq::empty() },
            Some((n, c)) => tpl_prepend(
                TplItem::Length(nat_mod32(n)),
                parse_template(s.skip(3).skip(c)),
            ),
        }
    } else {
        if s.len() < 10 {
            TplParse::Early { rna: s.skip(3) }
        } else {
            tpl_prepend_rna(s.subrange(3, 10), parse_template(s.skip(10)))
        }
    }
}

#[via_fn]
proof fn parse_template_dec(s: Seq<Base>) {
    if s.len() >= 2 {
        lemma_first_p_bounds(s.skip(2));
        if parse_nat(s.skip(2)) is Some {
            let c1 = parse_nat(s.skip(2))->Some_0.1;
            lemma_first_p_bounds(s.skip(2).skip(c1));
        }
        if s.len() >= 3 {
            lemma_first_p_bounds(s.skip(3));
        }
    }
}

/// The least `j` at or after `i` where `pat` occurs in `s`, as the
/// pattern's search item finds it; nothing when no occurrence fits.
pub open spec fn find_match(s: Seq<Base>, pat: Seq<Base>, i: int) -> Option<int>
    decreases s.len() - i,
{
    if i < 0 {
        None
    } else if i + pat.len() > s.len() {
        None
    } else if pat.len() == 0 {
        Some(i)
    } else if s.subrange(i, i + pat.len()) == pat {
        Some(i)
    } else {
        find_match(s, pat, i + 1)
    }
}

/// Walking the pattern items over a sequence from cursor `i` with the
/// groups captured so far: the final cursor and captured regions, or
/// nothing when the pattern fails to match.
pub open spec fn match_items(
    items: Seq<PatItem>,
    s: Seq<Base>,
    i: int,
    env: Seq<Seq<Base>>,
    c: Seq<int>,
) -> Option<(int, Seq<Seq<Base>>)>
    decreases items.len(),
{
    if items.len() == 0 {
        Some((i, env))
    } else {
        let rest = items.drop_first();
        match items[0] {
            PatItem::Base(b) => if i < s.len() && s[i] == b {
                match_items(rest, s, i + 1, env, c)
            } else {
                None
            },
            PatItem::Skip(n) => if i + n <= s.len() {
                match_items(rest, s, i + n, env, c)
            } else {
                None
            },
            PatItem::Search(needle) => if needle.len() == 0 {
                match_items(rest, s, i, env, c)
            } else {
                match find_match(s, needle, i) {
                    None => None,
                    Some(j) => match_items(rest, s, j + needle.len(), env, c),
                }
            },
            PatItem::Open => match_items(rest, s, i, env, c.push(i)),
            PatItem::Close => if c.len() > 0 {
                match_items(rest, s, i, env.push(s.subrange(c.last(), i)), c.drop_last())
            } else {
                None
            },
        }
    }
}

pub open spec fn match_pattern(items: Seq<PatItem>, s: Seq<Base>) -> Option<(int, Seq<Seq<Base>>)> {
    match_items(items, s, 0, Seq::empty(), Seq::empty())
}

/// What one template item expands to, given the captured groups. An
/// out-of-range reference expands to nothing; a length is encoded as
/// its 32-bit value.
pub open spec fn tpl_item_expansion(it: TplItem, env: Seq<Seq<Base>>) -> Seq<Base> {
    match it {
        TplItem::Base(b) => seq![b],
        TplItem::Ref(n, l) => if n < env.len() {
            protect_seq(l, env[n as int])
        } else {
            Seq::empty()
        },
        TplItem::Length(n) => as_nat_seq(
            nat_mod32(
                if n < env.len() {
                    env[n as int].len()
                } else {
                    0
                },
            ),
        ),
    }
}

/// What a whole template expands to.
pub open spec fn expansion(tpl: Seq<TplItem>, env: Seq<Seq<Base>>) -> Seq<Base>
    decreases tpl.len(),
{
    if tpl.len() == 0 {
        Seq::empty()
    } else {
        tpl_item_expansion(tpl[0], env) + expansion(tpl.drop_first(), env)
    }
}

pub proof fn lemma_expansion_push(tpl: Seq<TplItem>, env: Seq<Seq<Base>>, it: TplItem)
    ensures
        expansion(tpl.push(it), env) == expansion(tpl, env) + tpl_item_expansion(it, env),
    decreases tpl.len(),
{
    if tpl.len() == 0 {
        let e = Seq::<TplItem>::empty();
        assert(tpl.push(it).drop_first() =~= e);
        assert(tpl.push(it)[0] == it);
        assert(expansion(tpl.push(it), env) == tpl_item_expansion(it, env) + expansion(e, env));
        assert(expansion(e, env).len() == 0);
        assert(expansion(tpl, env).len() == 0);
        assert(expansion(tpl.push(it), env) =~= expansion(tpl, env) + tpl_item_expansion(it, env));
    } else {
        assert(tpl.push(it).drop_first() =~= tpl.drop_first().push(it));
        assert(tpl.push(it)[0] == tpl[0]);
        lemma_expansion_push(tpl.drop_first(), env, it);
        assert(expansion(tpl.push(it), env) =~= expansion(tpl, env) + tpl_item_expansion(it, env));
    }
}

/// The captured regions as mathematical sequences, relative to a
/// storage.
pub open spec fn env_views(st: Seq<Seq<Base>>, env: Seq<DNASlice>) -> Seq<Seq<Base>> {
    env.map_values(|e: DNASlice| slice_view(st, e))
}

pub open spec fn slices_all_wf(st: Seq<Seq<Base>>, env: Seq<DNASlice>) -> bool {
    forall|j: int| 0 <= j < env.len() ==> slice_wf(st, #[trigger] env[j])
}

/// The sequence after one match-and-replace: unchanged when the
/// pattern fails, else the template expansion prepended to what
/// follows the matched prefix.
pub open spec fn spec_match_replace(p: Seq<PatItem>, t: Seq<TplItem>, s: Seq<Base>) -> Seq<Base> {
    match match_pattern(p, s) {
        None => s,
        Some((i, env)) => expansion(t, env) + s.skip(i),
    }
}

/// Whether the replaced sequence would exceed what a machine-sized
/// length can hold.
pub open spec fn replace_overflows(p: Seq<PatItem>, t: Seq<TplItem>, s: Seq<Base>) -> bool {
    match match_pattern(p, s) {
        None => false,
        Some((i, env)) => expansion(t, env).len() + (s.len() - i) > usize::MAX,
    }
}

pub proof fn lemma_find_match_bounds(s: Seq<Base>, pat: Seq<Base>, i: int)
    ensures
        match find_match(s, pat, i) {
            None => true,
            Some(j) => i <= j && 0 <= j && j + pat.len() <= s.len(),
        },
    decreases s.len() - i,
{
    if i >= 0 && i + pat.len() <= s.len() && pat.len() > 0 && s.subrange(i, i + pat.len()) != pat {
        lemma_find_match_bounds(s, pat, i + 1);
    }
}

proof fn lemma_chunks_view_push(st: Seq<Seq<Base>>, cs: Seq<DNAChunk>, c: DNAChunk)
    ensures
        chunks_view(st, cs.push(c)) == chunks_view(st, cs) + chunk_view(st, c),
{
    crate::dna::lemma_chunks_view_split(st, cs.push(c), cs.len() as int);
    assert(cs.push(c).take(cs.len() as int) =~= cs);
    assert(cs.push(c).skip(cs.len() as int) =~= seq![c]);
    let e = Seq::<DNAChunk>::empty();
    assert(seq![c].drop_first() =~= e);
    assert(seq![c][0] == c);
    assert(chunks_view(st, seq![c]) == chunk_view(st, c) + chunks_view(st, e));
    assert(chunks_view(st, e).len() == 0);
    assert(chunks_view(st, seq![c]) =~= chunk_view(st, c));
}

/// The outcome of one rewrite iteration: the run finished because a
/// parser ran out, or the sequence was rewritten; either way some
/// bases may have been emitted.
#[verifier::ext_equal]
pub enum StepRes {
    Early { rna: Seq<Base> },
    Next { dna: Seq<Base>, rna: Seq<Base> },
}

/// One rewrite iteration: parse a pattern, parse a template, then
/// match and replace.
pub open spec fn rewrite_step(s: Seq<Base>) -> StepRes {
    match parse_pattern(s, 0) {
        PatParse::Early { rna } => StepRes::Early { rna },
        PatParse::Done { items: p, rna: r1, rest: s1 } => match parse_template(s1) {
            TplParse::Early { rna: r2 } => StepRes::Early { rna: r1 + r2 },
            TplParse::Done { items: t, rna: r2, rest: s2 } => StepRes::Next {
                dna: spec_match_replace(p, t, s2),
                rna: r1 + r2,
            },
        },
    }
}

/// The bases one iteration emits, whether or not it completes.
pub open spec fn step_emissions(s: Seq<Base>) -> Seq<Base> {
    match rewrite_step(s) {
        StepRes::Early { rna } => rna,
        StepRes::Next { rna, .. } => rna,
    }
}

/// Whether the next iteration's replaced sequence would not fit a
/// machine-sized length.
pub open spec fn step_overflows(s: Seq<Base>) -> bool {
    match parse_pattern(s, 0) {
        PatParse::Early { .. } => false,
        PatParse::Done { items: p, rna: r1, rest: s1 } => match parse_template(s1) {
            TplParse::Early { .. } => false,
            TplParse::Done { items: t, rna: r2, rest: s2 } => replace_overflows(p, t, s2),
        },
    }
}

/// The sequence, the accumulated emissions, and whether the run
/// finished, after at most `n` iterations from `s`.
pub open spec fn run_steps(s: Seq<Base>, n: nat) -> (Seq<Base>, Seq<Base>, bool)
    decreases n,
{
    if n == 0 {
        (s, Seq::empty(), false)
    } else {
        match rewrite_step(s) {
            StepRes::Early { rna } => (s, rna, true),
            StepRes::Next { dna, rna } => {
                let rec = run_steps(dna, (n - 1) as nat);
                (rec.0, rna + rec.1, rec.2)
            },
        }
    }
}

/// Unrolling a run from the back: one more iteration applied to the
/// state the first `n` reached.
pub proof fn lemma_run_steps_snoc(s: Seq<Base>, n: nat)
    requires
        !run_steps(s, n).2,
    ensures
        match rewrite_step(run_steps(s, n).0) {
            StepRes::Early { rna } => {
                &&& run_steps(s, n + 1).0 == run_steps(s, n).0
                &&& run_steps(s, n + 1).1 == run_steps(s, n).1 + rna
                &&& run_steps(s, n + 1).2 == true
            },
            StepRes::Next { dna, rna } => {
                &&& run_steps(s, n + 1).0 == dna
                &&& run_steps(s, n + 1).1 == run_steps(s, n).1 + rna
                &&& run_steps(s, n + 1).2 == false
            },
        },
    decreases n,
{
    if n == 0 {
        match rewrite_step(s) {
            StepRes::Early { rna } => {
                assert(Seq::<Base>::empty() + rna =~= rna);
            },
            StepRes::Next { dna, rna } => {
                assert(run_steps(dna, 0).1 =~= Seq::<Base>::empty());
                assert(rna + Seq::<Base>::empty() =~= rna);
                assert(Seq::<Base>::empty() + rna =~= rna);
                match rewrite_step(dna) {
                    StepRes::Early { rna: e2 } => {
                        assert(rna + (Seq::<Base>::empty() + e2) =~= rna + e2);
                    },
                    StepRes::Next { dna: d2, rna: e2 } => {
                        assert(run_steps(d2, 0).1 =~= Seq::<Base>::empty());
                        assert(rna + (e2 + Seq::<Base>::empty()) =~= rna + e2);
                    },
                }
            },
        }
    } else {
        match rewrite_step(s) {
            StepRes::Early { rna } => {
                // a finished run contradicts the requirement
                assert(false);
            },
            StepRes::Next { dna, rna } => {
                lemma_run_steps_snoc(dna, (n - 1) as nat);
                let rec = run_steps(dna, (n - 1) as nat);
                match rewrite_step(rec.0) {
                    StepRes::Early { rna: e2 } => {
                        assert(rna + (rec.1 + e2) =~= (rna + rec.1) + e2);
                    },
                    StepRes::Next { dna: d2, rna: e2 } => {
                        assert(rna + (rec.1 + e2) =~= (rna + rec.1) + e2);
                    },
                }
            },
        }
    }
}

/// A rewriting run from `s0` can emit exactly `emitted`: after some
/// number of iterations the run finished; or the next replaced
/// sequence would exceed a machine-sized length, every emission of
/// the aborted iteration included; or more iterations than a 64-bit
/// counter holds were completed.
pub open spec fn drives_to(s0: Seq<Base>, emitted: Seq<Base>) -> bool {
    exists|n: nat|
        #![trigger run_steps(s0, n)]
        {
            let d = run_steps(s0, n).0;
            let r = run_steps(s0, n).1;
            let fin = run_steps(s0, n).2;
            ||| (fin && emitted == r)
            ||| (!fin && step_overflows(d) && emitted == r + step_emissions(d))
            ||| (!fin && n == u64::MAX && emitted == r)
        }
}

/// The signal that the sequence ran out mid parse: the normal end of
/// a rewriting run, not an error.
#[derive(Debug, PartialEq)]
pub struct EarlyFinish;

pub type CanFinishEarly<T> = Result<T, EarlyFinish>;

/// The rewriter state: the working sequence and the instruction
/// stream emitted so far.
pub struct ExecutionState {
    pub dna: DNA,
    pub rna: Vec<Base>,
}

/// Runs the rewriter over `prefix` and `dna` read as ASCII bases,
/// returning the emitted instruction stream.
pub fn execute(prefix: &[u8], dna: &[u8]) -> (r: Vec<Base>)
    requires
        forall|i: int| 0 <= i < prefix@.len() ==> byte_is_base(prefix@[i]),
        forall|i: int| 0 <= i < dna@.len() ==> byte_is_base(dna@[i]),
    ensures
        drives_to(
            prefix@.map_values(|c: u8| byte_to_base(c)) + dna@.map_values(|c: u8| byte_to_base(c)),
            r@,
        ),
{
    let mut state = ExecutionState::new(prefix, dna);
    let ghost s0 = state.dna@;
    state.execute();
    proof {
        let r2 = choose|r2: Seq<Base>|
            #![trigger drives_to(s0, r2)]
            state.rna@ == Seq::<Base>::empty() + r2 && drives_to(s0, r2);
        assert(Seq::<Base>::empty() + r2 =~= r2);
        assert(state.rna@ == r2);
    }
    state.rna
}

impl ExecutionState {
    pub open spec fn wf(self) -> bool {
        self.dna.wf()
    }

    pub fn new(prefix: &[u8], dna_base: &[u8]) -> (r: Self)
        requires
            forall|i: int| 0 <= i < prefix@.len() ==> byte_is_base(prefix@[i]),
            forall|i: int| 0 <= i < dna_base@.len() ==> byte_is_base(dna_base@[i]),
        ensures
            r.wf(),
            r.dna@ == prefix@.map_values(|c: u8| byte_to_base(c)) + dna_base@.map_values(
                |c: u8| byte_to_base(c),
            ),
            r.rna@.len() == 0,
    {
        let p = to_base_vec(prefix);
        let d = to_base_vec(dna_base);
        let ghost pv = p@;
        let ghost dv = d@;
        let mut chunks: Vec<Vec<Base>> = Vec::new();
        chunks.push(p);
        chunks.push(d);
        let dna = DNA::new(chunks.as_slice());
        proof {
            let m = chunks@.map_values(|v: Vec<Base>| v@);
            let e = Seq::<Seq<Base>>::empty();
            assert(m.len() == 2);
            assert(m[0] == pv);
            assert(m[1] == dv);
            assert(m.last() == dv);
            assert(m.drop_last() =~= seq![pv]);
            assert(seq![pv].last() == pv);
            assert(seq![pv].drop_last() =~= e);
            assert(crate::dna::concat_seqs(e).len() == 0);
            assert(crate::dna::concat_seqs(seq![pv]) == crate::dna::concat_seqs(e) + pv);
            assert(crate::dna::concat_seqs(seq![pv]) =~= pv);
            assert(crate::dna::concat_seqs(m) == crate::dna::concat_seqs(seq![pv]) + dv);
            assert(crate::dna::concat_seqs(m) =~= pv + dv);
        }
        ExecutionState { dna, rna: Vec::new() }
    }

    /// Reads an encoded natural from the front of the sequence. The
    /// value is kept in 32 bits, wrapping as an accumulator would.
    #[verifier::spinoff_prover]
    #[verifier::rlimit(60)]
    pub fn read_nat(&mut self) -> (r: CanFinishEarly<u32>)
        requires
            old(self).wf(),
        ensures
            final(self).wf(),
            final(self).rna@ == old(self).rna@,
            final(self).dna.storage() == old(self).dna.storage(),
            match r {
                Ok(v) => match parse_nat(old(self).dna@) {
                    Some(vc) => v as nat == nat_mod32(vc.0) && final(self).dna@ == old(
                        self,
                    ).dna@.skip(vc.1),
                    None => false,
                },
                Err(_) => {
                    &&& parse_nat(old(self).dna@) is None
                    &&& final(self).dna@.len() == 0
                },
            },
    {
        let ghost orig = self.dna@;
        let mut stack: Vec<Base> = Vec::new();
        loop
            invariant_except_break
                self.dna@ == orig.skip(stack@.len() as int),
            invariant
                orig == old(self).dna@,
                self.wf(),
                self.rna@ == old(self).rna@,
                self.dna.storage() == old(self).dna.storage(),
                stack@.len() <= orig.len(),
                stack@ == orig.take(stack@.len() as int),
                forall|j: int| 0 <= j < stack@.len() ==> orig[j] != Base::P,
            ensures
                self.wf(),
                self.rna@ == old(self).rna@,
                self.dna.storage() == old(self).dna.storage(),
                stack@ == orig.take(stack@.len() as int),
                first_p(orig) == Some(stack@.len() as int),
                self.dna@ == orig.skip(stack@.len() as int + 1),
            decreases orig.len() - stack@.len(),
        {
            let ghost k = stack@.len() as int;
            match self.dna.pop_front() {
                None => {
                    proof {
                        assert(orig.skip(k).len() == 0);
                        assert(stack@.len() == orig.len());
                        lemma_first_p_none(orig);
                    }
                    return Err(EarlyFinish);
                },
                Some(b) => {
                    proof {
                        assert(b == orig.skip(k)[0]);
                        assert(b == orig[k]);
                        assert(orig.skip(k).drop_first() =~= orig.skip(k + 1));
                    }
                    match b {
                        Base::P => {
                            proof {
                                lemma_first_p_at(orig, k);
                                assert(stack@ == orig.take(k));
                                assert(self.dna@ =~= orig.skip(k + 1));
                            }
                            break ;
                        },
                        _ => {
                            stack.push(b);
                            proof {
                                assert(stack@ =~= orig.take(k + 1));
                            }
                        },
                    }
                },
            }
        }
        // the bits were gathered front first; reading the stack from
        // the top yields the value most significant bit first
        let ghost bits = stack@;
        let mut result: u32 = 0;
        proof {
            assert(bits.skip(bits.len() as int) =~= Seq::<Base>::empty());
            assert(bits.take(bits.len() as int) =~= bits);
        }
        while stack.len() > 0
            invariant
                stack@ == bits.take(stack@.len() as int),
                stack@.len() <= bits.len(),
                result as nat == nat_mod32(bits_value(bits.skip(stack@.len() as int))),
            decreases stack@.len(),
        {
            let ghost m = stack@.len() as int;
            let x = match stack.pop() {
                Some(x) => x,
                None => vstd::pervasive::unreached(),
            };
            proof {
                assert(x == bits[m - 1]);
                assert(stack@ =~= bits.take(m - 1));
            }
            let bit: u32 = if x == Base::C {
                1
            } else {
                0
            };
            let wide: u64 = (result as u64) * 2 + (bit as u64);
            result = (wide % 0x1_0000_0000) as u32;
            proof {
                let md = 0x1_0000_0000int;
                let tail = bits_value(bits.skip(m));
                assert(bits.skip(m - 1).drop_first() =~= bits.skip(m));
                assert(bits_value(bits.skip(m - 1)) == (if bits[m - 1] == Base::C {
                    1nat
                } else {
                    0nat
                }) + 2 * tail);
                vstd::arithmetic::div_mod::lemma_mul_mod_noop_right(2, tail as int, md);
                vstd::arithmetic::div_mod::lemma_add_mod_noop(2 * (tail as int), bit as int, md);
                vstd::arithmetic::div_mod::lemma_add_mod_noop(
                    2 * ((tail as int) % md),
                    bit as int,
                    md,
                );
                assert((2 * ((tail as int) % md) + bit) % md == (2 * tail + bit) % md);
                assert(result as int == (2 * tail + bit) % md);
            }
        }
        proof {
            assert(bits.take(0) =~= Seq::<Base>::empty());
            assert(bits.skip(0) =~= bits);
        }
        Ok(result)
    }

    /// Encodes a count as bases, least significant bit first, closed
    /// by a `P`.
    pub fn as_nat(n: u32) -> (r: Vec<Base>)
        ensures
            r@ == as_nat_seq(n as nat),
    {
        let mut n = n;
        let mut result: Vec<Base> = Vec::new();
        let ghost n0 = n as nat;
        while n > 0
            invariant
                as_nat_seq(n0) == result@ + as_nat_seq(n as nat),
            decreases n,
        {
            let ghost np = n as nat;
            if n % 2 == 0 {
                result.push(Base::I);
            } else {
                result.push(Base::C);
            }
            n = n / 2;
            proof {
                assert(as_nat_seq(np).drop_first() == as_nat_seq(n as nat));
                assert(result@ + as_nat_seq(n as nat) =~= as_nat_seq(n0));
            }
        }
        result.push(Base::P);
        proof {
            assert(as_nat_seq(0) =~= seq![Base::P]);
            assert(result@ =~= as_nat_seq(n0));
        }
        result
    }

    /// Reads a literal run from the front of the sequence, unescaping
    /// as it goes; the first prefix that is no escape ends the run.
    #[verifier::spinoff_prover]
    #[verifier::rlimit(60)]
    pub fn consts(&mut self) -> (r: Vec<Base>)
        requires
            old(self).wf(),
        ensures
            final(self).wf(),
            final(self).rna@ == old(self).rna@,
            final(self).dna.storage() == old(self).dna.storage(),
            r@ == parse_consts(old(self).dna@).0,
            final(self).dna@ == old(self).dna@.skip(parse_consts(old(self).dna@).1),
    {
        let ghost orig = self.dna@;
        let mut result: Vec<Base> = Vec::new();
        let ghost mut consumed: int = 0;
        proof {
            assert(orig.skip(0) =~= orig);
        }
        loop
            invariant
                self.wf(),
                self.rna@ == old(self).rna@,
                self.dna.storage() == old(self).dna.storage(),
                0 <= consumed <= orig.len(),
                self.dna@ == orig.skip(consumed),
                parse_consts(orig).0 == result@ + parse_consts(orig.skip(consumed)).0,
                parse_consts(orig).1 == consumed + parse_consts(orig.skip(consumed)).1,
            ensures
                self.wf(),
                self.rna@ == old(self).rna@,
                self.dna.storage() == old(self).dna.storage(),
                result@ == parse_consts(orig).0,
                self.dna@ == orig.skip(parse_consts(orig).1),
            decreases orig.len() - consumed,
        {
            let ghost cur = orig.skip(consumed);
            if self.dna.is_empty() {
                proof {
                    assert(parse_consts(cur).0 =~= Seq::<Base>::empty());
                    assert(result@ + parse_consts(cur).0 =~= result@);
                }
                break ;
            }
            let b0 = self.dna.index(0);
            proof {
                assert(cur[0] == b0);
                assert(cur.skip(1) =~= orig.skip(consumed + 1));
                if cur.len() >= 2 {
                    assert(cur.skip(2) =~= orig.skip(consumed + 2));
                }
            }
            match b0 {
                Base::C => {
                    let ghost r0 = result@;
                    let _ = self.dna.pop_front();
                    result.push(Base::I);
                    proof {
                        assert(self.dna@ =~= orig.skip(consumed + 1));
                        assert(parse_consts(cur).0 == seq![Base::I] + parse_consts(cur.skip(1)).0);
                        assert(r0 + (seq![Base::I] + parse_consts(cur.skip(1)).0) =~= result@
                            + parse_consts(cur.skip(1)).0);
                        consumed = consumed + 1;
                    }
                },
                Base::F => {
                    let ghost r0 = result@;
                    let _ = self.dna.pop_front();
                    result.push(Base::C);
                    proof {
                        assert(self.dna@ =~= orig.skip(consumed + 1));
                        assert(parse_consts(cur).0 == seq![Base::C] + parse_consts(cur.skip(1)).0);
                        assert(r0 + (seq![Base::C] + parse_consts(cur.skip(1)).0) =~= result@
                            + parse_consts(cur.skip(1)).0);
                        consumed = consumed + 1;
                    }
                },
                Base::P => {
                    let ghost r0 = result@;
                    let _ = self.dna.pop_front();
                    result.push(Base::F);
                    proof {
                        assert(self.dna@ =~= orig.skip(consumed + 1));
                        assert(parse_consts(cur).0 == seq![Base::F] + parse_consts(cur.skip(1)).0);
                        assert(r0 + (seq![Base::F] + parse_consts(cur.skip(1)).0) =~= result@
                            + parse_consts(cur.skip(1)).0);
                        consumed = consumed + 1;
                    }
                },
                Base::I => {
                    if self.dna.len() >= 2 {
                        let b1 = self.dna.index(1);
                        proof {
                            assert(cur[1] == b1);
                        }
                        if b1 == Base::C {
                            let ghost r0 = result@;
                            let _ = self.dna.pop_front();
                            let _ = self.dna.pop_front();
                            result.push(Base::P);
                            proof {
                                assert(self.dna@ =~= orig.skip(consumed + 2));
                                assert(parse_consts(cur).0 == seq![Base::P] + parse_consts(
                                    cur.skip(2),
                                ).0);
                                assert(r0 + (seq![Base::P] + parse_consts(cur.skip(2)).0)
                                    =~= result@ + parse_consts(cur.skip(2)).0);
                                consumed = consumed + 2;
                            }
                        } else {
                            proof {
                                assert(parse_consts(cur).0 =~= Seq::<Base>::empty());
                                assert(result@ + parse_consts(cur).0 =~= result@);
                            }
                            break ;
                        }
                    } else {
                        proof {
                            assert(parse_consts(cur).0 =~= Seq::<Base>::empty());
                            assert(result@ + parse_consts(cur).0 =~= result@);
                        }
                        break ;
                    }
                },
            }
        }
        result
    }

    /// Iterates parse and replace until a parser runs out of
    /// sequence; every iteration's emissions are appended to the
    /// instruction stream.
    #[verifier::spinoff_prover]
    #[verifier::rlimit(60)]
    pub fn execute(&mut self)
        requires
            old(self).wf(),
        ensures
            final(self).wf(),
            exists|r2: Seq<Base>|
                #![trigger drives_to(old(self).dna@, r2)]
                final(self).rna@ == old(self).rna@ + r2 && drives_to(old(self).dna@, r2),
    {
        let ghost s0 = self.dna@;
        let ghost rna0 = self.rna@;
        let ghost mut n: nat = 0;
        let mut fuel: u64 = u64::MAX;
        proof {
            assert(rna0 + Seq::<Base>::empty() =~= rna0);
        }
        loop
            invariant
                self.wf(),
                s0 == old(self).dna@,
                rna0 == old(self).rna@,
                n + fuel as nat == u64::MAX as nat,
                run_steps(s0, n).0 == self.dna@,
                !run_steps(s0, n).2,
                self.rna@ == rna0 + run_steps(s0, n).1,
            decreases fuel,
        {
            let ghost d = self.dna@;
            let ghost r = run_steps(s0, n).1;
            if fuel == 0 {
                proof {
                    assert(n == u64::MAX as nat);
                    assert(run_steps(s0, n).0 == run_steps(s0, n).0);
                    assert(drives_to(s0, r));
                }
                return ;
            }
            let pattern = match self.pattern() {
                Ok(p) => p,
                Err(_) => {
                    proof {
                        lemma_run_steps_snoc(s0, n);
                        match parse_pattern(d, 0) {
                            PatParse::Early { rna } => {
                                assert(rewrite_step(d) == (StepRes::Early { rna }));
                                assert((rna0 + r) + rna =~= rna0 + (r + rna));
                                assert(run_steps(s0, n + 1).2);
                                assert(self.rna@ == rna0 + run_steps(s0, n + 1).1);
                                assert(drives_to(s0, run_steps(s0, n + 1).1));
                            },
                            PatParse::Done { .. } => {
                                assert(false);
                            },
                        }
                    }
                    return ;
                },
            };
            let ghost s1 = self.dna@;
            let ghost r1 = parse_pattern(d, 0)->Done_rna;
            let template = match self.template() {
                Ok(t) => t,
                Err(_) => {
                    proof {
                        lemma_run_steps_snoc(s0, n);
                        match parse_template(s1) {
                            TplParse::Early { rna: r2 } => {
                                assert(rewrite_step(d) == (StepRes::Early { rna: r1 + r2 }));
                                assert(((rna0 + r) + r1) + r2 =~= rna0 + (r + (r1 + r2)));
                                assert(run_steps(s0, n + 1).2);
                                assert(self.rna@ == rna0 + run_steps(s0, n + 1).1);
                                assert(drives_to(s0, run_steps(s0, n + 1).1));
                            },
                            TplParse::Done { .. } => {
                                assert(false);
                            },
                        }
                    }
                    return ;
                },
            };
            let ghost r2 = parse_template(s1)->Done_rna;
            let ghost s2 = self.dna@;
            let ok = self.match_replace(pattern, template);
            if !ok {
                proof {
                    assert(step_overflows(d));
                    assert(step_emissions(d) == r1 + r2);
                    assert(((rna0 + r) + r1) + r2 =~= rna0 + (r + (r1 + r2)));
                    assert(self.rna@ == rna0 + (r + step_emissions(d)));
                    assert(run_steps(s0, n).0 == run_steps(s0, n).0);
                    assert(drives_to(s0, r + step_emissions(d)));
                }
                return ;
            }
            proof {
                lemma_run_steps_snoc(s0, n);
                assert(rewrite_step(d) == (StepRes::Next {
                    dna: spec_match_replace(pattern@, template@, s2),
                    rna: r1 + r2,
                }));
                assert(((rna0 + r) + r1) + r2 =~= rna0 + (r + (r1 + r2)));
                assert(run_steps(s0, n + 1).0 == self.dna@);
                assert(!run_steps(s0, n + 1).2);
                assert(self.rna@ == rna0 + run_steps(s0, n + 1).1);
                n = n + 1;
            }
            fuel = fuel - 1;
        }
    }

    /// Consumes and parses one pattern from the
    /// sequence, forwarding escaped emissions to the instruction
    /// stream; finishing early when the sequence runs out.
    #[verifier::spinoff_prover]
    #[verifier::rlimit(60)]
    pub fn pattern(&mut self) -> (r: CanFinishEarly<Pattern>)
        requires
            old(self).wf(),
        ensures
            final(self).wf(),
            final(self).dna.storage() == old(self).dna.storage(),
            match r {
                Ok(pat) => match parse_pattern(old(self).dna@, 0) {
                    PatParse::Done { items, rna, rest } => pat@ == items && final(self).dna@
                        == rest && final(self).rna@ == old(self).rna@ + rna,
                    PatParse::Early { .. } => false,
                },
                Err(_) => match parse_pattern(old(self).dna@, 0) {
                    PatParse::Early { rna } => final(self).rna@ == old(self).rna@ + rna
                        && final(self).dna@.len() == 0,
                    PatParse::Done { .. } => false,
                },
            },
    {
        let ghost orig = self.dna@;
        let ghost rna0 = self.rna@;
        let mut pat: Vec<PatternItem> = Vec::new();
        let mut level: usize = 0;
        let ghost mut acc: Seq<Base> = Seq::empty();
        proof {
            assert(rna0 + acc =~= rna0);
            lemma_pat_cont_empty(parse_pattern(orig, 0));
            assert(pat@.map_values(|it: PatternItem| it@) =~= Seq::<PatItem>::empty());
        }
        loop
            invariant
                self.wf(),
                self.dna.storage() == old(self).dna.storage(),
                orig == old(self).dna@,
                orig.len() <= usize::MAX,
                rna0 == old(self).rna@,
                self.rna@ == rna0 + acc,
                level as int <= orig.len() - self.dna@.len(),
                parse_pattern(orig, 0) == pat_cont(
                    pat@.map_values(|it: PatternItem| it@),
                    acc,
                    parse_pattern(self.dna@, level as nat),
                ),
            decreases self.dna@.len(),
        {
            let ghost cur = self.dna@;
            let ghost items = pat@.map_values(|it: PatternItem| it@);
            let ghost lvl = level as nat;
            let b0 = match self.dna.pop_front() {
                Some(b) => b,
                None => {
                    proof {
                        assert(acc + Seq::<Base>::empty() =~= acc);
                    }
                    return Err(EarlyFinish);
                },
            };
            proof {
                assert(cur[0] == b0);
                assert(self.dna@ =~= cur.skip(1));
            }
            match b0 {
                Base::C => {
                    pat.push(PatternItem::Base(Base::I));
                    proof {
                        lemma_pat_cont_item(items, acc, PatItem::Base(Base::I), parse_pattern(cur.skip(1), lvl));
                        assert(pat@.map_values(|it: PatternItem| it@) =~= items.push(PatItem::Base(Base::I)));
                    }
                },
                Base::F => {
                    pat.push(PatternItem::Base(Base::C));
                    proof {
                        lemma_pat_cont_item(items, acc, PatItem::Base(Base::C), parse_pattern(cur.skip(1), lvl));
                        assert(pat@.map_values(|it: PatternItem| it@) =~= items.push(PatItem::Base(Base::C)));
                    }
                },
                Base::P => {
                    pat.push(PatternItem::Base(Base::F));
                    proof {
                        lemma_pat_cont_item(items, acc, PatItem::Base(Base::F), parse_pattern(cur.skip(1), lvl));
                        assert(pat@.map_values(|it: PatternItem| it@) =~= items.push(PatItem::Base(Base::F)));
                    }
                },
                Base::I => {
                    let b1 = match self.dna.pop_front() {
                        Some(b) => b,
                        None => {
                            proof {
                                assert(cur.len() == 1);
                                assert(acc + Seq::<Base>::empty() =~= acc);
                            }
                            return Err(EarlyFinish);
                        },
                    };
                    proof {
                        assert(cur.skip(1)[0] == cur[1]);
                        assert(cur[1] == b1);
                        assert(self.dna@ =~= cur.skip(2));
                    }
                    match b1 {
                        Base::C => {
                            pat.push(PatternItem::Base(Base::P));
                            proof {
                                lemma_pat_cont_item(items, acc, PatItem::Base(Base::P), parse_pattern(cur.skip(2), lvl));
                                assert(pat@.map_values(|it: PatternItem| it@) =~= items.push(PatItem::Base(Base::P)));
                            }
                        },
                        Base::P => {
                            match self.read_nat() {
                                Ok(v) => {
                                    pat.push(PatternItem::Skip(v));
                                    proof {
                                        lemma_first_p_bounds(cur.skip(2));
                                        let c = parse_nat(cur.skip(2))->Some_0.1;
                                        lemma_pat_cont_item(items, acc, PatItem::Skip(v as nat), parse_pattern(cur.skip(2).skip(c), lvl));
                                        assert(pat@.map_values(|it: PatternItem| it@) =~= items.push(PatItem::Skip(v as nat)));
                                    }
                                },
                                Err(e) => {
                                    proof {
                                        assert(acc + Seq::<Base>::empty() =~= acc);
                                    }
                                    return Err(e);
                                },
                            }
                        },
                        Base::F => {
                            let popped = self.dna.pop_front();
                            let ghost t = self.dna@;
                            proof {
                                match popped {
                                    Some(_) => {
                                        assert(cur.len() >= 3);
                                        assert(t =~= cur.skip(3));
                                    },
                                    None => {
                                        assert(cur.len() == 2);
                                        assert(t =~= cur.skip(2));
                                    },
                                }
                            }
                            let run = self.consts();
                            pat.push(PatternItem::Search(run));
                            proof {
                                lemma_parse_consts_consumed(t);
                                lemma_pat_cont_item(items, acc, PatItem::Search(parse_consts(t).0), parse_pattern(t.skip(parse_consts(t).1), lvl));
                                assert(pat@.map_values(|it: PatternItem| it@) =~= items.push(PatItem::Search(parse_consts(t).0)));
                            }
                        },
                        Base::I => {
                            let b2 = match self.dna.pop_front() {
                                Some(b) => b,
                                None => {
                                    proof {
                                        assert(cur.len() == 2);
                                        assert(acc + Seq::<Base>::empty() =~= acc);
                                    }
                                    return Err(EarlyFinish);
                                },
                            };
                            proof {
                                assert(cur.skip(2)[0] == cur[2]);
                                assert(cur[2] == b2);
                                assert(self.dna@ =~= cur.skip(3));
                            }
                            match b2 {
                                Base::P => {
                                    level = level + 1;
                                    pat.push(PatternItem::GroupOpen);
                                    proof {
                                        lemma_pat_cont_item(items, acc, PatItem::Open, parse_pattern(cur.skip(3), lvl + 1));
                                        assert(pat@.map_values(|it: PatternItem| it@) =~= items.push(PatItem::Open));
                                    }
                                },
                                Base::C | Base::F => {
                                    if level == 0 {
                                        proof {
                                            assert(parse_pattern(cur, lvl) == (PatParse::Done {
                                                items: Seq::empty(),
                                                rna: Seq::empty(),
                                                rest: cur.skip(3),
                                            }));
                                            assert(items + Seq::<PatItem>::empty() =~= items);
                                            assert(acc + Seq::<Base>::empty() =~= acc);
                                            assert(parse_pattern(orig, 0) =~= (PatParse::Done {
                                                items: items,
                                                rna: acc,
                                                rest: cur.skip(3),
                                            }));
                                        }
                                        return Ok(Pattern(pat));
                                    } else {
                                        level = level - 1;
                                        pat.push(PatternItem::GroupClose);
                                        proof {
                                            lemma_pat_cont_item(items, acc, PatItem::Close, parse_pattern(cur.skip(3), (lvl - 1) as nat));
                                            assert(pat@.map_values(|it: PatternItem| it@) =~= items.push(PatItem::Close));
                                        }
                                    }
                                },
                                Base::I => {
                                    let len = self.dna.len();
                                    if len < 7 {
                                        let sl = self.dna.slice(0..len);
                                        let mut out = self.dna.render(&sl);
                                        proof {
                                            assert(out@ =~= cur.skip(3));
                                        }
                                        self.rna.append(&mut out);
                                        self.dna.truncate_front(len);
                                        proof {
                                            assert(cur.len() < 10);
                                            assert(parse_pattern(cur, lvl) == (PatParse::Early { rna: cur.skip(3) }));
                                            assert((rna0 + acc) + cur.skip(3) =~= rna0 + (acc + cur.skip(3)));
                                        }
                                        return Err(EarlyFinish);
                                    } else {
                                        let sl = self.dna.slice(0..7);
                                        let mut out = self.dna.render(&sl);
                                        proof {
                                            assert(out@ =~= cur.subrange(3, 10));
                                        }
                                        self.rna.append(&mut out);
                                        self.dna.truncate_front(7);
                                        proof {
                                            assert(cur.len() >= 10);
                                            assert(self.dna@ =~= cur.skip(10));
                                            lemma_pat_cont_rna(items, acc, cur.subrange(3, 10), parse_pattern(cur.skip(10), lvl));
                                            acc = acc + cur.subrange(3, 10);
                                            assert(self.rna@ =~= rna0 + acc);
                                        }
                                    }
                                },
                            }
                        },
                    }
                },
            }
        }
    }

    /// Consumes and parses one template from the front of the
    /// sequence, forwarding escaped emissions to the instruction
    /// stream; finishing early when the sequence runs out.
    #[verifier::spinoff_prover]
    #[verifier::rlimit(60)]
    pub fn template(&mut self) -> (r: CanFinishEarly<Template>)
        requires
            old(self).wf(),
        ensures
            final(self).wf(),
            final(self).dna.storage() == old(self).dna.storage(),
            match r {
                Ok(tpl) => match parse_template(old(self).dna@) {
                    TplParse::Done { items, rna, rest } => tpl@ == items && final(self).dna@
                        == rest && final(self).rna@ == old(self).rna@ + rna,
                    TplParse::Early { .. } => false,
                },
                Err(_) => match parse_template(old(self).dna@) {
                    TplParse::Early { rna } => final(self).rna@ == old(self).rna@ + rna
                        && final(self).dna@.len() == 0,
                    TplParse::Done { .. } => false,
                },
            },
    {
        let ghost orig = self.dna@;
        let ghost rna0 = self.rna@;
        let mut tpl: Vec<TemplateItem> = Vec::new();
        let ghost mut acc: Seq<Base> = Seq::empty();
        proof {
            assert(rna0 + acc =~= rna0);
            lemma_tpl_cont_empty(parse_template(orig));
            assert(tpl@.map_values(|it: TemplateItem| it@) =~= Seq::<TplItem>::empty());
        }
        loop
            invariant
                self.wf(),
                self.dna.storage() == old(self).dna.storage(),
                orig == old(self).dna@,
                rna0 == old(self).rna@,
                self.rna@ == rna0 + acc,
                parse_template(orig) == tpl_cont(
                    tpl@.map_values(|it: TemplateItem| it@),
                    acc,
                    parse_template(self.dna@),
                ),
            decreases self.dna@.len(),
        {
            let ghost cur = self.dna@;
            let ghost items = tpl@.map_values(|it: TemplateItem| it@);
            let b0 = match self.dna.pop_front() {
                Some(b) => b,
                None => {
                    proof {
                        assert(acc + Seq::<Base>::empty() =~= acc);
                    }
                    return Err(EarlyFinish);
                },
            };
            proof {
                assert(cur[0] == b0);
                assert(self.dna@ =~= cur.skip(1));
            }
            match b0 {
                Base::C => {
                    tpl.push(TemplateItem::Base(Base::I));
                    proof {
                        lemma_tpl_cont_item(items, acc, TplItem::Base(Base::I), parse_template(cur.skip(1)));
                        assert(tpl@.map_values(|it: TemplateItem| it@) =~= items.push(TplItem::Base(Base::I)));
                    }
                },
                Base::F => {
                    tpl.push(TemplateItem::Base(Base::C));
                    proof {
                        lemma_tpl_cont_item(items, acc, TplItem::Base(Base::C), parse_template(cur.skip(1)));
                        assert(tpl@.map_values(|it: TemplateItem| it@) =~= items.push(TplItem::Base(Base::C)));
                    }
                },
                Base::P => {
                    tpl.push(TemplateItem::Base(Base::F));
                    proof {
                        lemma_tpl_cont_item(items, acc, TplItem::Base(Base::F), parse_template(cur.skip(1)));
                        assert(tpl@.map_values(|it: TemplateItem| it@) =~= items.push(TplItem::Base(Base::F)));
                    }
                },
                Base::I => {
                    let b1 = match self.dna.pop_front() {
                        Some(b) => b,
                        None => {
                            proof {
                                assert(cur.len() == 1);
                                assert(acc + Seq::<Base>::empty() =~= acc);
                            }
                            return Err(EarlyFinish);
                        },
                    };
                    proof {
                        assert(cur.skip(1)[0] == cur[1]);
                        assert(cur[1] == b1);
                        assert(self.dna@ =~= cur.skip(2));
                    }
                    match b1 {
                        Base::C => {
                            tpl.push(TemplateItem::Base(Base::P));
                            proof {
                                lemma_tpl_cont_item(items, acc, TplItem::Base(Base::P), parse_template(cur.skip(2)));
                                assert(tpl@.map_values(|it: TemplateItem| it@) =~= items.push(TplItem::Base(Base::P)));
                            }
                        },
                        Base::F | Base::P => {
                            let l = match self.read_nat() {
                                Ok(l) => l,
                                Err(e) => {
                                    proof {
                                        assert(acc + Seq::<Base>::empty() =~= acc);
                                    }
                                    return Err(e);
                                },
                            };
                            let ghost c1 = parse_nat(cur.skip(2))->Some_0.1;
                            proof {
                                lemma_first_p_bounds(cur.skip(2));
                            }
                            let n = match self.read_nat() {
                                Ok(n) => n,
                                Err(e) => {
                                    proof {
                                        assert(acc + Seq::<Base>::empty() =~= acc);
                                    }
                                    return Err(e);
                                },
                            };
                            tpl.push(TemplateItem::Ref(n, l));
                            proof {
                                let c2 = parse_nat(cur.skip(2).skip(c1))->Some_0.1;
                                lemma_first_p_bounds(cur.skip(2).skip(c1));
                                lemma_tpl_cont_item(items, acc, TplItem::Ref(n as nat, l as nat), parse_template(cur.skip(2).skip(c1).skip(c2)));
                                assert(tpl@.map_values(|it: TemplateItem| it@) =~= items.push(TplItem::Ref(n as nat, l as nat)));
                            }
                        },
                        Base::I => {
                            let b2 = match self.dna.pop_front() {
                                Some(b) => b,
                                None => {
                                    proof {
                                        assert(cur.len() == 2);
                                        assert(acc + Seq::<Base>::empty() =~= acc);
                                    }
                                    return Err(EarlyFinish);
                                },
                            };
                            proof {
                                assert(cur.skip(2)[0] == cur[2]);
                                assert(cur[2] == b2);
                                assert(self.dna@ =~= cur.skip(3));
                            }
                            match b2 {
                                Base::C | Base::F => {
                                    proof {
                                        assert(parse_template(cur) == (TplParse::Done {
                                            items: Seq::empty(),
                                            rna: Seq::empty(),
                                            rest: cur.skip(3),
                                        }));
                                        assert(items + Seq::<TplItem>::empty() =~= items);
                                        assert(acc + Seq::<Base>::empty() =~= acc);
                                        assert(parse_template(orig) =~= (TplParse::Done {
                                            items: items,
                                            rna: acc,
                                            rest: cur.skip(3),
                                        }));
                                    }
                                    return Ok(Template(tpl));
                                },
                                Base::P => {
                                    match self.read_nat() {
                                        Ok(n) => {
                                            tpl.push(TemplateItem::Length(n));
                                            proof {
                                                lemma_first_p_bounds(cur.skip(3));
                                                let c = parse_nat(cur.skip(3))->Some_0.1;
                                                lemma_tpl_cont_item(items, acc, TplItem::Length(n as nat), parse_template(cur.skip(3).skip(c)));
                                                assert(tpl@.map_values(|it: TemplateItem| it@) =~= items.push(TplItem::Length(n as nat)));
                                            }
                                        },
                                        Err(e) => {
                                            proof {
                                                assert(acc + Seq::<Base>::empty() =~= acc);
                                            }
                                            return Err(e);
                                        },
                                    }
                                },
                                Base::I => {
                                    let len = self.dna.len();
                                    if len < 7 {
                                        let sl = self.dna.slice(0..len);
                                        let mut out = self.dna.render(&sl);
                                        proof {
                                            assert(out@ =~= cur.skip(3));
                                        }
                                        self.rna.append(&mut out);
                                        self.dna.truncate_front(len);
                                        proof {
                                            assert(cur.len() < 10);
                                            assert(parse_template(cur) == (TplParse::Early { rna: cur.skip(3) }));
                                            assert((rna0 + acc) + cur.skip(3) =~= rna0 + (acc + cur.skip(3)));
                                        }
                                        return Err(EarlyFinish);
                                    } else {
                                        let sl = self.dna.slice(0..7);
                                        let mut out = self.dna.render(&sl);
                                        proof {
                                            assert(out@ =~= cur.subrange(3, 10));
                                        }
                                        self.rna.append(&mut out);
                                        self.dna.truncate_front(7);
                                        proof {
                                            assert(cur.len() >= 10);
                                            assert(self.dna@ =~= cur.skip(10));
                                            lemma_tpl_cont_rna(items, acc, cur.subrange(3, 10), parse_template(cur.skip(10)));
                                            acc = acc + cur.subrange(3, 10);
                                            assert(self.rna@ =~= rna0 + acc);
                                        }
                                    }
                                },
                            }
                        },
                    }
                },
            }
        }
    }

    /// Builds the chunks a template expands to: literal runs become
    /// owned chunks, an unquoted reference passes the captured region
    /// through as a shared snapshot, a quoted one is materialized and
    /// escaped, and a length is encoded as an owned run.
    pub fn replace(&self, template: Template, env: &Vec<DNASlice>) -> (r: Vec<DNAChunk>)
        requires
            self.wf(),
            slices_all_wf(self.dna.storage(), env@),
        ensures
            chunks_wf(self.dna.storage(), r@),
            chunks_view(self.dna.storage(), r@) == expansion(
                template@,
                env_views(self.dna.storage(), env@),
            ),
    {
        let ghost st = self.dna.storage();
        let ghost ev = env_views(st, env@);
        let ghost titems = template@;
        let mut result: Vec<DNAChunk> = Vec::new();
        let mut current: Vec<Base> = Vec::new();
        let mut q: usize = 0;
        proof {
            assert(titems.take(0) =~= Seq::<TplItem>::empty());
            assert(chunks_view(st, result@).len() == 0);
            assert(chunks_view(st, result@) + current@ =~= expansion(titems.take(0), ev));
        }
        while q < template.0.len()
            invariant
                self.wf(),
                st == self.dna.storage(),
                slices_all_wf(st, env@),
                ev == env_views(st, env@),
                titems == template@,
                q <= template.0@.len(),
                chunks_wf(st, result@),
                chunks_view(st, result@) + current@ == expansion(titems.take(q as int), ev),
            decreases template.0@.len() - q,
        {
            let it = template.0[q];
            let ghost itv = it@;
            proof {
                assert(titems[q as int] == itv);
                assert(titems.take(q as int + 1) =~= titems.take(q as int).push(itv));
                lemma_expansion_push(titems.take(q as int), ev, itv);
            }
            match it {
                TemplateItem::Base(b) => {
                    current.push(b);
                    proof {
                        assert(tpl_item_expansion(itv, ev) =~= seq![b]);
                        assert(chunks_view(st, result@) + current@ =~= (chunks_view(st, result@)
                            + current@.drop_last()) + seq![b]);
                    }
                },
                TemplateItem::Ref(n, l) => {
                    if current.len() > 0 {
                        let ghost cv0 = chunks_view(st, result@);
                        let ghost cur0 = current@;
                        proof {
                            lemma_chunks_view_push(st, result@, DNAChunk::Owned(current));
                        }
                        result.push(DNAChunk::Owned(current));
                        current = Vec::new();
                        proof {
                            assert(chunks_view(st, result@) + current@ =~= cv0 + cur0);
                        }
                    }
                    if (n as usize) < env.len() {
                        proof {
                            assert(env@[n as int] == env[n as int]);
                            assert(ev[n as int] == slice_view(st, env@[n as int]));
                        }
                        if l == 0 {
                            let s = env[n as usize].clone();
                            let ghost cv0 = chunks_view(st, result@);
                            proof {
                                assert(slice_view(st, s) == ev[n as int]);
                                assert(slice_wf(st, s));
                                lemma_chunks_view_push(st, result@, DNAChunk::Slice(s));
                                assert(tpl_item_expansion(itv, ev) == protect_seq(0, ev[n as int]));
                            }
                            result.push(DNAChunk::Slice(s));
                            proof {
                                assert(chunks_view(st, result@) + current@ =~= cv0 + ev[n as int]);
                            }
                        } else {
                            let rendered = self.dna.render(&env[n as usize]);
                            let protected = Self::protect(l, rendered);
                            let ghost cv0 = chunks_view(st, result@);
                            proof {
                                assert(protected@ == protect_seq(l as nat, ev[n as int]));
                                lemma_chunks_view_push(st, result@, DNAChunk::Owned(protected));
                            }
                            result.push(DNAChunk::Owned(protected));
                            proof {
                                assert(chunks_view(st, result@) + current@ =~= cv0 + protect_seq(
                                    l as nat,
                                    ev[n as int],
                                ));
                            }
                        }
                    } else {
                        proof {
                            assert(tpl_item_expansion(itv, ev).len() == 0);
                            assert(chunks_view(st, result@) + current@ =~= expansion(
                                titems.take(q as int),
                                ev,
                            ) + tpl_item_expansion(itv, ev));
                        }
                    }
                },
                TemplateItem::Length(n) => {
                    if current.len() > 0 {
                        let ghost cv0 = chunks_view(st, result@);
                        let ghost cur0 = current@;
                        proof {
                            lemma_chunks_view_push(st, result@, DNAChunk::Owned(current));
                        }
                        result.push(DNAChunk::Owned(current));
                        current = Vec::new();
                        proof {
                            assert(chunks_view(st, result@) + current@ =~= cv0 + cur0);
                        }
                    }
                    let length: usize = if (n as usize) < env.len() {
                        proof {
                            assert(env@[n as int] == env[n as int]);
                            assert(ev[n as int] == slice_view(st, env@[n as int]));
                        }
                        env[n as usize].len()
                    } else {
                        0
                    };
                    let length32: u32 = ((length as u64) % 0x1_0000_0000u64) as u32;
                    proof {
                        assert(length32 as nat == nat_mod32(length as nat));
                    }
                    let v = Self::as_nat(length32);
                    let ghost cv0 = chunks_view(st, result@);
                    proof {
                        lemma_chunks_view_push(st, result@, DNAChunk::Owned(v));
                        assert(tpl_item_expansion(itv, ev) == as_nat_seq(length32 as nat));
                    }
                    result.push(DNAChunk::Owned(v));
                    proof {
                        assert(chunks_view(st, result@) + current@ =~= cv0 + as_nat_seq(
                            length32 as nat,
                        ));
                    }
                },
            }
            q = q + 1;
        }
        if current.len() > 0 {
            let ghost cv0 = chunks_view(st, result@);
            let ghost cur0 = current@;
            proof {
                lemma_chunks_view_push(st, result@, DNAChunk::Owned(current));
            }
            result.push(DNAChunk::Owned(current));
            proof {
                assert(chunks_view(st, result@) =~= cv0 + cur0);
            }
        } else {
            proof {
                assert(chunks_view(st, result@) =~= chunks_view(st, result@) + current@);
            }
        }
        proof {
            assert(titems.take(titems.len() as int) =~= titems);
        }
        result
    }

    /// Walks the pattern over the sequence, capturing groups; when the
    /// whole pattern matches, consumes the matched prefix and prepends
    /// the template expansion. Reports `false`, leaving the sequence
    /// unchanged, only when the replaced sequence would not fit a
    /// machine-sized length.
    #[verifier::spinoff_prover]
    #[verifier::rlimit(60)]
    pub fn match_replace(&mut self, pattern: Pattern, template: Template) -> (ok: bool)
        requires
            old(self).wf(),
        ensures
            final(self).wf(),
            final(self).rna@ == old(self).rna@,
            crate::dna::storage_extends(old(self).dna.storage(), final(self).dna.storage()),
            ok ==> final(self).dna@ == spec_match_replace(pattern@, template@, old(self).dna@),
            ok == !replace_overflows(pattern@, template@, old(self).dna@),
            !ok ==> final(self).dna@ == old(self).dna@,
    {
        let ghost s = self.dna@;
        let ghost st = self.dna.storage();
        let ghost pitems = pattern@;
        let mut i: usize = 0;
        let mut env: Vec<DNASlice> = Vec::new();
        let mut c: Vec<usize> = Vec::new();
        let mut k: usize = 0;
        proof {
            assert(pitems.skip(0) =~= pitems);
            assert(env_views(st, env@) =~= Seq::<Seq<Base>>::empty());
            assert(c@.map_values(|x: usize| x as int) =~= Seq::<int>::empty());
        }
        while k < pattern.0.len()
            invariant
                self.wf(),
                self.dna@ == s,
                self.dna.storage() == st,
                self.rna@ == old(self).rna@,
                s == old(self).dna@,
                st == old(self).dna.storage(),
                pitems == pattern@,
                k <= pattern.0@.len(),
                i <= s.len(),
                slices_all_wf(st, env@),
                forall|j: int| 0 <= j < c@.len() ==> c@[j] <= i,
                match_pattern(pitems, s) == match_items(
                    pitems.skip(k as int),
                    s,
                    i as int,
                    env_views(st, env@),
                    c@.map_values(|x: usize| x as int),
                ),
            decreases pattern.0@.len() - k,
        {
            let ghost rest = pitems.skip(k as int);
            let ghost ev = env_views(st, env@);
            let ghost cv = c@.map_values(|x: usize| x as int);
            proof {
                assert(rest[0] == pitems[k as int]);
                assert(pitems[k as int] == pattern.0@[k as int]@);
                assert(rest.drop_first() =~= pitems.skip(k as int + 1));
            }
            let item = &pattern.0[k];
            match item {
                PatternItem::Base(b) => {
                    if i < self.dna.len() {
                        let cur = self.dna.index(i);
                        if cur == *b {
                            i = i + 1;
                        } else {
                            proof {
                                assert(match_pattern(pitems, s) is None);
                            }
                            return true;
                        }
                    } else {
                        proof {
                            assert(match_pattern(pitems, s) is None);
                        }
                        return true;
                    }
                },
                PatternItem::Skip(n) => {
                    let nn = *n as usize;
                    if nn > self.dna.len() - i {
                        proof {
                            assert(match_pattern(pitems, s) is None);
                        }
                        return true;
                    } else {
                        i = i + nn;
                    }
                },
                PatternItem::Search(sv) => {
                    let ghost i0 = i as int;
                    if sv.len() > 0 {
                        if sv.len() > self.dna.len() - i {
                            proof {
                                assert(find_match(s, sv@, i as int) is None);
                                assert(match_pattern(pitems, s) is None);
                            }
                            return true;
                        }
                        let mut window = self.dna.window(i, sv.len());
                        loop
                            invariant_except_break
                                i as int == i0,
                                window.wf(self.dna),
                                window.spec_start() == i,
                                window.width() == sv@.len(),
                                find_match(s, sv@, i0) == find_match(
                                    s,
                                    sv@,
                                    i0 + window.spec_offset(),
                                ),
                            invariant
                                self.wf(),
                                self.dna@ == s,
                                self.dna.storage() == st,
                                self.rna@ == old(self).rna@,
                                s == old(self).dna@,
                                st == old(self).dna.storage(),
                                pitems == pattern@,
                                k < pattern.0@.len(),
                                i <= s.len(),
                                slices_all_wf(st, env@),
                                forall|j: int| 0 <= j < c@.len() ==> c@[j] <= i0,
                                rest == pitems.skip(k as int),
                                ev == env_views(st, env@),
                                cv == c@.map_values(|x: usize| x as int),
                                match_pattern(pitems, s) == match_items(rest, s, i0, ev, cv),
                                rest[0] == pitems[k as int],
                                pitems[k as int] == pattern.0@[k as int]@,
                                rest.drop_first() == pitems.skip(k as int + 1),
                                pattern.0@[k as int] is Search,
                                sv@ == pattern.0@[k as int]->Search_0@,
                                sv@.len() >= 1,
                                i0 >= 0,
                            ensures
                                i <= s.len(),
                                find_match(s, sv@, i0) == Some(i - sv@.len()),
                                i - sv@.len() >= 0,
                            decreases s.len() - i0 - window.spec_offset(),
                        {
                            if window.is_match(sv.as_slice()) {
                                let off = window.offset();
                                proof {
                                    assert(window.window@ == s.subrange(
                                        i0 + off,
                                        i0 + off + sv@.len(),
                                    ));
                                    assert(s.subrange(i0 + off, i0 + off + sv@.len()) == sv@);
                                    assert(find_match(s, sv@, i0 + off) == Some(i0 + off));
                                }
                                i = i + off + sv.len();
                                break ;
                            }
                            let ghost off = window.spec_offset();
                            proof {
                                assert(window.window@ == s.subrange(
                                    i0 + off,
                                    i0 + off + sv@.len(),
                                ));
                                assert(s.subrange(i0 + off, i0 + off + sv@.len()) != sv@);
                            }
                            if !window.next(&self.dna) {
                                proof {
                                    assert(i0 + off + sv@.len() == s.len());
                                    assert(find_match(s, sv@, i0 + off) == find_match(
                                        s,
                                        sv@,
                                        i0 + off + 1,
                                    ));
                                    assert(find_match(s, sv@, i0 + off + 1) is None);
                                    assert(match_pattern(pitems, s) is None);
                                }
                                return true;
                            }
                        }
                        proof {
                            lemma_find_match_bounds(s, sv@, i0);
                            assert(match_items(rest, s, i0, ev, cv) == match_items(
                                pitems.skip(k as int + 1),
                                s,
                                i as int,
                                ev,
                                cv,
                            ));
                        }
                    } else {
                        proof {
                            assert(match_items(rest, s, i0, ev, cv) == match_items(
                                pitems.skip(k as int + 1),
                                s,
                                i as int,
                                ev,
                                cv,
                            ));
                        }
                    }
                },
                PatternItem::GroupOpen => {
                    c.push(i);
                    proof {
                        assert(c@.map_values(|x: usize| x as int) =~= cv.push(i as int));
                    }
                },
                PatternItem::GroupClose => {
                    let ghost c0 = c@;
                    match c.pop() {
                        None => {
                            proof {
                                assert(cv.len() == 0);
                                assert(match_pattern(pitems, s) is None);
                            }
                            return true;
                        },
                        Some(start) => {
                            proof {
                                assert(start == c0.last());
                                assert(start <= i);
                            }
                            let sl = self.dna.slice(start..i);
                            proof {
                                assert(slice_view(st, sl) == s.subrange(start as int, i as int));
                            }
                            env.push(sl);
                            proof {
                                assert(env_views(st, env@) =~= ev.push(
                                    s.subrange(start as int, i as int),
                                ));
                                assert(c@ =~= c0.drop_last());
                                assert(c@.map_values(|x: usize| x as int) =~= cv.drop_last());
                                assert(cv.last() == start as int);
                            }
                        },
                    }
                },
            }
            k = k + 1;
        }
        proof {
            assert(pitems.skip(pitems.len() as int) =~= Seq::<PatItem>::empty());
            assert(match_pattern(pitems, s) == Some(
                (i as int, env_views(st, env@)),
            ));
        }
        let ghost ev = env_views(st, env@);
        let chunks = self.replace(template, &env);
        let ghost csq = chunks@;
        let ghost exp = expansion(template@, ev);
        let mut q: usize = 0;
        let mut total: u128 = 0;
        proof {
            assert(csq.take(0) =~= Seq::<DNAChunk>::empty());
            assert(chunks_view(st, csq.take(0)).len() == 0);
        }
        while q < chunks.len()
            invariant
                q <= csq.len(),
                csq == chunks@,
                st == self.dna.storage(),
                chunks_wf(st, csq),
                total as nat == chunks_view(st, csq.take(q as int)).len(),
                total <= usize::MAX as u128 + usize::MAX as u128,
            ensures
                q == csq.len() || total > usize::MAX as u128,
            decreases csq.len() - q,
        {
            if total > usize::MAX as u128 {
                break ;
            }
            let c_len: usize = match &chunks[q] {
                DNAChunk::Owned(v) => v.len(),
                DNAChunk::Slice(sl) => sl.len(),
            };
            proof {
                assert(csq[q as int] == chunks@[q as int]);
                assert(chunk_wf(st, csq[q as int]));
                assert(c_len as nat == chunk_view(st, csq[q as int]).len());
                assert(csq.take(q as int + 1) =~= csq.take(q as int).push(csq[q as int]));
                lemma_chunks_view_push(st, csq.take(q as int), csq[q as int]);
            }
            total = total + c_len as u128;
            q = q + 1;
        }
        proof {
            if q == csq.len() {
                assert(csq.take(q as int) =~= csq);
            } else {
                crate::dna::lemma_chunks_view_split(st, csq, q as int);
                assert((chunks_view(st, csq.take(q as int)) + chunks_view(
                    st,
                    csq.skip(q as int),
                )).len() == chunks_view(st, csq).len());
                assert(exp.len() >= total);
            }
            assert(chunks_view(st, csq) == exp);
        }
        let over = if total > usize::MAX as u128 {
            true
        } else {
            let rest_len = self.dna.len() - i;
            total > (usize::MAX - rest_len) as u128
        };
        if over {
            proof {
                if total <= usize::MAX as u128 {
                    assert(q == csq.len());
                    assert(total as nat == exp.len());
                }
                assert(exp.len() + (s.len() - i) > usize::MAX);
                assert(replace_overflows(pattern@, template@, s));
            }
            return false;
        }
        proof {
            assert(q == csq.len());
            assert(total as nat == exp.len());
            assert(exp.len() + (s.len() - i) <= usize::MAX);
            assert(!replace_overflows(pattern@, template@, s));
        }
        self.dna.truncate_front(i);
        self.dna.extend_front(chunks);
        true
    }

    /// Escapes a run of bases once.
    pub fn quote(d: &Vec<Base>) -> (r: Vec<Base>)
        ensures
            r@ == quote_seq(d@),
    {
        let mut result: Vec<Base> = Vec::new();
        let mut i: usize = 0;
        proof {
            assert(d@.take(0) =~= Seq::<Base>::empty());
        }
        while i < d.len()
            invariant
                i <= d@.len(),
                result@ == quote_seq(d@.take(i as int)),
            decreases d@.len() - i,
        {
            match d[i] {
                Base::I => result.push(Base::C),
                Base::C => result.push(Base::F),
                Base::F => result.push(Base::P),
                Base::P => {
                    result.push(Base::I);
                    result.push(Base::C);
                },
            }
            proof {
                lemma_quote_seq_push(d@.take(i as int), d@[i as int]);
                assert(d@.take(i + 1) =~= d@.take(i as int).push(d@[i as int]));
                assert(result@ =~= quote_seq(d@.take(i as int)) + quote_base(d@[i as int]));
            }
            i = i + 1;
        }
        proof {
            assert(d@.take(d@.len() as int) =~= d@);
        }
        result
    }

    /// Escapes a run of bases `l` times; callers quote only when the
    /// level asks for it.
    pub fn protect(l: u32, data: Vec<Base>) -> (r: Vec<Base>)
        requires
            l >= 1,
        ensures
            r@ == protect_seq(l as nat, data@),
    {
        let mut result = data;
        let mut k: u32 = 0;
        while k < l
            invariant
                k <= l,
                result@ == protect_seq(k as nat, data@),
            decreases l - k,
    {
            result = Self::quote(&result);
            k = k + 1;
        }
        result
    }
}

} // verus!
