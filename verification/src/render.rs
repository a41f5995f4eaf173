//! Rendering the tree for the external terminal collaborator: a sequence of
//! styled text fragments and cursor markers, and the resolution of cursor
//! markers into highlighted fragments.

use vstd::prelude::*;

use crate::selection::{sel_has, sel_offset, Selection};
use crate::tree::{models, AST, ASTInner, SpecNode, SpecVal};

verus! {

/// Relies on String::push of std: appends one character.
pub assume_specification[ String::push ](s: &mut String, ch: char)
    ensures
        final(s)@ == old(s)@.push(ch),
;

/// A one-character string.
pub fn char_string(c: char) -> (r: String)
    ensures
        r@ == seq![c],
{
    let mut s = String::new();
    s.push(c);
    proof {
        assert(s@ =~= seq![c]);
    }
    s
}

/// One fragment of rendered output: a cursor marker, or a piece of text
/// with an emphasis flag.
pub enum MySpan {
    Cursor,
    Text(String, bool),
}

/// The model of a fragment.
pub enum SpanModel {
    Cursor,
    Text(Seq<char>, bool),
}

impl MySpan {
    /// The model of this fragment.
    pub open spec fn model(self) -> SpanModel {
        match self {
            MySpan::Cursor => SpanModel::Cursor,
            MySpan::Text(t, h) => SpanModel::Text(t@, h),
        }
    }
}

/// The models of a fragment sequence.
pub open spec fn spans(v: Seq<MySpan>) -> Seq<SpanModel> {
    v.map_values(|m: MySpan| m.model())
}

/// The decimal digits of `n`, most significant first.
pub open spec fn dec_digits(n: nat) -> Seq<char>
    decreases n,
{
    if n < 10 {
        seq![((0x30 + n) as u8) as char]
    } else {
        dec_digits(n / 10).push(((0x30 + n % 10) as u8) as char)
    }
}

/// The decimal text of a signed 64-bit integer.
pub open spec fn i64_dec(v: i64) -> Seq<char> {
    if v >= 0 {
        dec_digits(v as nat)
    } else {
        seq!['-'] + dec_digits((-(v as int)) as nat)
    }
}

/// Appends the decimal digits of `m` to `out`.
fn push_dec(out: &mut String, m: u64)
    ensures
        final(out)@ == old(out)@ + dec_digits(m as nat),
    decreases m,
{
    if m < 10 {
        out.push((0x30 + m as u8) as char);
        assert(out@ =~= old(out)@ + dec_digits(m as nat));
    } else {
        push_dec(out, m / 10);
        out.push((0x30 + (m % 10) as u8) as char);
        assert(out@ =~= old(out)@ + dec_digits(m as nat));
    }
}

/// The decimal text of `v`, as the tree renders an integer leaf.
pub fn to_decimal(v: i64) -> (r: String)
    ensures
        r@ == i64_dec(v),
{
    let mut out = String::new();
    if v >= 0 {
        push_dec(&mut out, v as u64);
    } else {
        out.push('-');
        let m: u64 = (-(v + 1)) as u64 + 1;
        proof {
            assert(m == -(v as int));
        }
        push_dec(&mut out, m);
        assert(out@ =~= seq!['-'] + dec_digits(m as nat));
    }
    out
}

/// How one node renders: an integer leaf is its decimal text, emphasized
/// when whole-node selected and split around a cursor marker when a caret
/// offset is stored (an offset past the digits sits at the end); a list is
/// its children's renderings, space-separated, between an opening
/// parenthesis, a plus sign, and a closing parenthesis, the parentheses
/// emphasized when the list is selected.
pub open spec fn render_sp(n: SpecNode, sel: Seq<(Seq<char>, Option<int>)>) -> Seq<SpanModel>
    decreases n,
{
    match n.val {
        SpecVal::Int(v) => {
            let txt = i64_dec(v);
            match sel_offset(sel, n.id) {
                Some(o) => match o {
                    Some(off) => {
                        let k = if 0 <= off <= txt.len() {
                            off
                        } else {
                            txt.len() as int
                        };
                        seq![
                            SpanModel::Text(txt.take(k), false),
                            SpanModel::Cursor,
                            SpanModel::Text(txt.skip(k), false),
                        ]
                    },
                    None => seq![SpanModel::Text(txt, true)],
                },
                None => seq![SpanModel::Text(txt, false)],
            }
        }
        SpecVal::List(cs) => {
            let style = sel_has(sel, n.id);
            seq![SpanModel::Text(seq!['('], style), SpanModel::Text(seq!['+'], false)]
                + render_children(cs, sel) + seq![SpanModel::Text(seq![')'], style)]
        }
    }
}

/// The children's renderings, each preceded by one space.
pub open spec fn render_children(cs: Seq<SpecNode>, sel: Seq<(Seq<char>, Option<int>)>) -> Seq<
    SpanModel,
>
    decreases cs,
{
    if cs.len() == 0 {
        Seq::empty()
    } else {
        seq![SpanModel::Text(seq![' '], false)] + render_sp(cs[0], sel) + render_children(
            cs.drop_first(),
            sel,
        )
    }
}

pub proof fn lemma_render_children_push(
    cs: Seq<SpecNode>,
    x: SpecNode,
    sel: Seq<(Seq<char>, Option<int>)>,
)
    ensures
        render_children(cs.push(x), sel) == render_children(cs, sel) + seq![
            SpanModel::Text(seq![' '], false),
        ] + render_sp(x, sel),
    decreases cs,
{
    if cs.len() == 0 {
        assert(cs.push(x).drop_first() =~= cs);
        assert(render_children(cs.push(x), sel) =~= render_children(cs, sel) + seq![
            SpanModel::Text(seq![' '], false),
        ] + render_sp(x, sel));
    } else {
        lemma_render_children_push(cs.drop_first(), x, sel);
        assert(cs.push(x).drop_first() =~= cs.drop_first().push(x));
        assert(render_children(cs.push(x), sel) =~= render_children(cs, sel) + seq![
            SpanModel::Text(seq![' '], false),
        ] + render_sp(x, sel));
    }
}

/// Appends the rendering of `t` to `out`.
fn render_into(t: &AST, selected: &Selection, out: &mut Vec<MySpan>)
    ensures
        spans(final(out)@) == spans(old(out)@) + render_sp(t.model(), selected.model()),
    decreases *t,
{
    let ghost m = t.model();
    let ghost base = spans(out@);
    let se = selected.lookup(&t.uuid);
    match &t.value {
        ASTInner::Integer { value } => {
            let txt = to_decimal(*value);
            let n = txt.as_str().unicode_len();
            match se {
                Option::Some(o) => match o {
                    Option::Some(off) => {
                        let k = if off <= n {
                            off
                        } else {
                            n
                        };
                        let before = txt.as_str().substring_char(0, k).to_owned();
                        let after = txt.as_str().substring_char(k, n).to_owned();
                        out.push(MySpan::Text(before, false));
                        out.push(MySpan::Cursor);
                        out.push(MySpan::Text(after, false));
                        proof {
                            assert(i64_dec(*value).take(k as int) =~= txt@.subrange(0, k as int));
                            assert(i64_dec(*value).skip(k as int) =~= txt@.subrange(
                                k as int,
                                n as int,
                            ));
                            assert(spans(out@) =~= base + render_sp(m, selected.model()));
                        }
                    }
                    Option::None => {
                        out.push(MySpan::Text(txt, true));
                        proof {
                            assert(spans(out@) =~= base + render_sp(m, selected.model()));
                        }
                    }
                },
                Option::None => {
                    out.push(MySpan::Text(txt, false));
                    proof {
                        assert(spans(out@) =~= base + render_sp(m, selected.model()));
                    }
                }
            }
        }
        ASTInner::Add { items } => {
            let ghost cs = models(t.value->Add_items@);
            proof {
                crate::tree::lemma_models_len(items@);
            }
            let style = match se {
                Option::Some(_) => true,
                Option::None => false,
            };
            proof {
                crate::selection::lemma_sel_offset_has(selected.model(), t.uuid@);
            }
            out.push(MySpan::Text(char_string('('), style));
            out.push(MySpan::Text(char_string('+'), false));
            let ghost mid = spans(out@);
            proof {
                assert(mid =~= base + seq![
                    SpanModel::Text(seq!['('], style),
                    SpanModel::Text(seq!['+'], false),
                ]);
                assert(render_children(cs.take(0), selected.model()) =~= Seq::<
                    SpanModel,
                >::empty());
                assert(spans(out@) =~= mid + render_children(cs.take(0), selected.model()));
            }
            let nc = items.len();
            let mut i: usize = 0;
            while i < nc
                invariant
                    t.value is Add,
                    *items == t.value->Add_items,
                    cs == models(items@),
                    nc == items@.len(),
                    cs.len() == nc,
                    i <= nc,
                    spans(out@) == mid + render_children(cs.take(i as int), selected.model()),
                decreases nc - i,
            {
                proof {
                    crate::tree::lemma_models_index(items@, i as int);
                    assert(decreases_to!(*t => t.value));
                    assert(decreases_to!(t.value => t.value->Add_items));
                    assert(decreases_to!(*items => items@));
                    assert(decreases_to!(items@ => items@[i as int]));
                }
                out.push(MySpan::Text(char_string(' '), false));
                proof {
                    assert(spans(out@) =~= mid + render_children(cs.take(i as int), selected.model())
                        + seq![SpanModel::Text(seq![' '], false)]);
                }
                render_into(&items[i], selected, out);
                proof {
                    assert(cs.take(i + 1) =~= cs.take(i as int).push(cs[i as int]));
                    lemma_render_children_push(cs.take(i as int), cs[i as int], selected.model());
                    assert(spans(out@) =~= mid + render_children(cs.take(i + 1), selected.model()));
                }
                i += 1;
            }
            let ghost pre_close = spans(out@);
            out.push(MySpan::Text(char_string(')'), style));
            proof {
                assert(cs.take(nc as int) =~= cs);
                assert(pre_close =~= mid + render_children(cs, selected.model()));
                assert(spans(out@) =~= pre_close + seq![SpanModel::Text(seq![')'], style)]);
                assert(spans(out@) =~= base + render_sp(m, selected.model()));
            }
        }
    }
}

impl AST {
    /// Renders this tree against the selection: the fragment sequence the
    /// terminal collaborator lays out.
    pub fn render(&self, selected: &Selection) -> (r: Vec<MySpan>)
        ensures
            spans(r@) == render_sp(self.model(), selected.model()),
    {
        let mut out: Vec<MySpan> = Vec::new();
        proof {
            assert(spans(out@) =~= Seq::<SpanModel>::empty());
        }
        render_into(self, selected, &mut out);
        out
    }
}

/// The fragments with empty texts dropped; cursor markers stay.
pub open spec fn nonempty_sp(sp: Seq<SpanModel>) -> Seq<SpanModel>
    decreases sp,
{
    if sp.len() == 0 {
        Seq::empty()
    } else {
        let rest = nonempty_sp(sp.drop_first());
        match sp[0] {
            SpanModel::Text(t, _) => if t.len() == 0 {
                rest
            } else {
                seq![sp[0]] + rest
            },
            SpanModel::Cursor => seq![sp[0]] + rest,
        }
    }
}

pub proof fn lemma_nonempty_push(sp: Seq<SpanModel>, x: SpanModel)
    ensures
        nonempty_sp(sp.push(x)) == nonempty_sp(sp) + (match x {
            SpanModel::Text(t, _) => if t.len() == 0 {
                Seq::<SpanModel>::empty()
            } else {
                seq![x]
            },
            SpanModel::Cursor => seq![x],
        }),
    decreases sp,
{
    let tail = (match x {
        SpanModel::Text(t, _) => if t.len() == 0 {
            Seq::<SpanModel>::empty()
        } else {
            seq![x]
        },
        SpanModel::Cursor => seq![x],
    });
    if sp.len() == 0 {
        assert(sp.push(x).drop_first() =~= sp);
        assert(nonempty_sp(sp.push(x)) =~= nonempty_sp(sp) + tail);
    } else {
        lemma_nonempty_push(sp.drop_first(), x);
        assert(sp.push(x).drop_first() =~= sp.drop_first().push(x));
        assert(nonempty_sp(sp.push(x)) =~= nonempty_sp(sp) + tail);
    }
}

/// Every text fragment `nonempty_sp` keeps is non-empty.
pub proof fn lemma_nonempty_texts(sp: Seq<SpanModel>)
    ensures
        forall|i: int|
            #![trigger nonempty_sp(sp)[i]]
            0 <= i < nonempty_sp(sp).len() ==> (nonempty_sp(sp)[i] matches SpanModel::Text(t, _)
                ==> t.len() > 0),
    decreases sp,
{
    if sp.len() > 0 {
        lemma_nonempty_texts(sp.drop_first());
    }
}

/// Cursor markers resolved into styled text: a marker emphasizes the first
/// character of the following text fragment; a trailing marker becomes one
/// emphasized space; a marker directly before another marker disappears.
/// Expects the empty texts to have been dropped already.
pub open spec fn resolve_sp(sp: Seq<SpanModel>) -> Seq<(Seq<char>, bool)>
    decreases sp.len(),
{
    if sp.len() == 0 {
        Seq::empty()
    } else {
        match sp[0] {
            SpanModel::Text(t, h) => seq![(t, h)] + resolve_sp(sp.drop_first()),
            SpanModel::Cursor => {
                if sp.len() == 1 {
                    seq![(seq![' '], true)]
                } else {
                    match sp[1] {
                        SpanModel::Text(t, h) => seq![(t.take(1), true), (t.skip(1), h)]
                            + resolve_sp(sp.skip(2)),
                        SpanModel::Cursor => resolve_sp(sp.drop_first()),
                    }
                }
            }
        }
    }
}

/// What the terminal collaborator receives for a fragment sequence: the
/// empty texts dropped, then every cursor marker resolved.
pub open spec fn styled_sp(sp: Seq<SpanModel>) -> Seq<(Seq<char>, bool)> {
    resolve_sp(nonempty_sp(sp))
}

/// The models of styled fragments.
pub open spec fn frags(v: Seq<(String, bool)>) -> Seq<(Seq<char>, bool)> {
    v.map_values(|p: (String, bool)| (p.0@, p.1))
}

/// Resolves a rendered fragment sequence into styled text pieces, each with
/// its emphasis flag, for the terminal collaborator to lay out.
pub fn styled_fragments(input: &Vec<MySpan>) -> (r: Vec<(String, bool)>)
    ensures
        frags(r@) == styled_sp(spans(input@)),
{
    let ghost im = spans(input@);
    let mut kept: Vec<MySpan> = Vec::new();
    let n = input.len();
    let mut i: usize = 0;
    proof {
        assert(im.take(0) =~= Seq::<SpanModel>::empty());
        assert(spans(kept@) =~= nonempty_sp(im.take(0)));
    }
    while i < n
        invariant
            im == spans(input@),
            n == input@.len(),
            im.len() == n,
            i <= n,
            spans(kept@) == nonempty_sp(im.take(i as int)),
        decreases n - i,
    {
        proof {
            assert(im[i as int] == input@[i as int].model());
            assert(im.take(i + 1) =~= im.take(i as int).push(im[i as int]));
            lemma_nonempty_push(im.take(i as int), im[i as int]);
        }
        match &input[i] {
            MySpan::Cursor => {
                kept.push(MySpan::Cursor);
                proof {
                    assert(spans(kept@) =~= nonempty_sp(im.take(i + 1)));
                }
            }
            MySpan::Text(t, h) => {
                if !t.as_str().is_empty() {
                    kept.push(MySpan::Text(t.clone(), *h));
                    proof {
                        assert(spans(kept@) =~= nonempty_sp(im.take(i + 1)));
                    }
                } else {
                    proof {
                        assert(spans(kept@) =~= nonempty_sp(im.take(i + 1)));
                    }
                }
            }
        }
        i += 1;
    }
    proof {
        assert(im.take(n as int) =~= im);
        lemma_nonempty_texts(im);
    }
    let ghost km = spans(kept@);
    let mut out: Vec<(String, bool)> = Vec::new();
    let kn = kept.len();
    let mut j: usize = 0;
    proof {
        assert(km.skip(0) =~= km);
        assert(frags(out@) =~= Seq::<(Seq<char>, bool)>::empty());
    }
    while j < kn
        invariant
            km == spans(kept@),
            kn == kept@.len(),
            km.len() == kn,
            j <= kn,
            forall|x: int|
                #![trigger km[x]]
                0 <= x < km.len() ==> (km[x] matches SpanModel::Text(t, _) ==> t.len() > 0),
            resolve_sp(km) == frags(out@) + resolve_sp(km.skip(j as int)),
        decreases kn - j,
    {
        proof {
            assert(km[j as int] == kept@[j as int].model());
            assert(km.skip(j as int)[0] == km[j as int]);
        }
        match &kept[j] {
            MySpan::Text(t, h) => {
                out.push((t.clone(), *h));
                proof {
                    assert(km.skip(j as int).drop_first() =~= km.skip(j + 1));
                    assert(frags(out@) =~= (frags(out@).drop_last()).push((t@, *h)));
                    assert(resolve_sp(km) =~= frags(out@) + resolve_sp(km.skip(j + 1)));
                }
                j += 1;
            }
            MySpan::Cursor => {
                if j + 1 < kn {
                    proof {
                        assert(km[j + 1] == kept@[j + 1].model());
                        assert(km.skip(j as int)[1] == km[j + 1]);
                    }
                    match &kept[j + 1] {
                        MySpan::Text(t, h) => {
                            let tn = t.as_str().unicode_len();
                            proof {
                                assert(t@.len() > 0);
                            }
                            let first = t.as_str().substring_char(0, 1).to_owned();
                            let rest = t.as_str().substring_char(1, tn).to_owned();
                            out.push((first, true));
                            out.push((rest, *h));
                            proof {
                                assert(t@.take(1) =~= t@.subrange(0, 1));
                                assert(t@.skip(1) =~= t@.subrange(1, t@.len() as int));
                                assert(km.skip(j as int).skip(2) =~= km.skip(j + 2));
                                assert(resolve_sp(km) =~= frags(out@) + resolve_sp(km.skip(j + 2)));
                            }
                            j += 2;
                        }
                        MySpan::Cursor => {
                            proof {
                                assert(km.skip(j as int).drop_first() =~= km.skip(j + 1));
                            }
                            j += 1;
                        }
                    }
                } else {
                    out.push((char_string(' '), true));
                    proof {
                        assert(km.skip(j as int).len() == 1);
                        assert(km.skip(j + 1) =~= Seq::<SpanModel>::empty());
                        assert(resolve_sp(km) =~= frags(out@) + resolve_sp(km.skip(j + 1)));
                    }
                    j += 1;
                }
            }
        }
    }
    proof {
        assert(km.skip(kn as int) =~= Seq::<SpanModel>::empty());
        assert(frags(out@) + Seq::<(Seq<char>, bool)>::empty() =~= frags(out@));
    }
    out
}

/// Whether `s` is one or more decimal digits.
pub open spec fn is_digits(s: Seq<char>) -> bool {
    s.len() > 0 && forall|i: int| 0 <= i < s.len() ==> 0x30 <= (#[trigger] s[i]) as u32 <= 0x39
}

/// The number the digit string `s` denotes.
pub open spec fn digits_num(s: Seq<char>) -> int
    decreases s.len(),
{
    if s.len() == 0 {
        0
    } else {
        digits_num(s.drop_last()) * 10 + ((s.last() as u32) as int - 0x30)
    }
}

/// The signed 64-bit integer the text `s` denotes: an optional minus sign,
/// then digits, rejected when out of range.
pub open spec fn parse_dec(s: Seq<char>) -> Option<i64> {
    if s.len() > 0 && s[0] == '-' {
        let d = s.skip(1);
        if is_digits(d) && digits_num(d) <= 0x8000000000000000 {
            Some((-digits_num(d)) as i64)
        } else {
            None
        }
    } else if is_digits(s) && digits_num(s) <= 0x7fffffffffffffff {
        Some(digits_num(s) as i64)
    } else {
        None
    }
}

/// A digit string's number is never negative.
pub proof fn lemma_digits_num_nonneg(s: Seq<char>)
    requires
        forall|i: int| 0 <= i < s.len() ==> 0x30 <= (#[trigger] s[i]) as u32 <= 0x39,
    ensures
        digits_num(s) >= 0,
    decreases s.len(),
{
    if s.len() > 0 {
        lemma_digits_num_nonneg(s.drop_last());
        assert(digits_num(s.drop_last()) * 10 >= 0) by (nonlinear_arith)
            requires
                digits_num(s.drop_last()) >= 0,
        ;
    }
}

/// Appending digits never shrinks the number.
pub proof fn lemma_digits_num_monotonic(s: Seq<char>, i: int)
    requires
        0 <= i <= s.len(),
        forall|j: int| 0 <= j < s.len() ==> 0x30 <= (#[trigger] s[j]) as u32 <= 0x39,
    ensures
        digits_num(s) >= digits_num(s.take(i)),
    decreases s.len() - i,
{
    if i < s.len() {
        lemma_digits_num_monotonic(s, i + 1);
        assert(s.take(i + 1).drop_last() =~= s.take(i));
        assert(s.take(i + 1).last() == s[i]);
        lemma_digits_num_nonneg(s.take(i));
        assert(digits_num(s.take(i)) * 10 >= digits_num(s.take(i))) by (nonlinear_arith)
            requires
                digits_num(s.take(i)) >= 0,
        ;
    } else {
        assert(s.take(i) =~= s);
    }
}

/// Parses decimal text into a signed 64-bit integer, refusing anything that
/// is not an optional minus sign followed by digits denoting an in-range
/// number.
pub fn parse_i64_chars(s: &Vec<char>) -> (r: Option<i64>)
    ensures
        r == parse_dec(s@),
{
    let n = s.len();
    if n == 0 {
        return None;
    }
    let neg = s[0] == '-';
    let start: usize = if neg {
        1
    } else {
        0
    };
    let ghost d = if neg {
        s@.skip(1)
    } else {
        s@
    };
    if start >= n {
        proof {
            assert(d.len() == 0);
        }
        return None;
    }
    let limit: u64 = if neg {
        0x8000000000000000
    } else {
        0x7fffffffffffffff
    };
    let mut acc: u64 = 0;
    let mut i: usize = start;
    proof {
        assert(d.take(0) =~= Seq::<char>::empty());
    }
    while i < n
        invariant
            n == s@.len(),
            start <= i <= n,
            start == (if neg {
                1int
            } else {
                0int
            }),
            neg ==> s@[0] == '-',
            !neg ==> (s@.len() == 0 || s@[0] != '-'),
            d == (if neg {
                s@.skip(1)
            } else {
                s@
            }),
            d.len() == n - start,
            limit == (if neg {
                0x8000000000000000u64
            } else {
                0x7fffffffffffffffu64
            }),
            forall|j: int| 0 <= j < i - start ==> 0x30 <= (#[trigger] d[j]) as u32 <= 0x39,
            acc == digits_num(d.take(i - start)),
            acc <= limit,
        decreases n - i,
    {
        let c = s[i];
        let cu = c as u32;
        proof {
            assert(d[i - start] == s@[i as int]);
        }
        if cu < 0x30 || cu > 0x39 {
            proof {
                assert(!(0x30 <= d[i - start] as u32 && d[i - start] as u32 <= 0x39));
                assert(!is_digits(d));
            }
            return None;
        }
        let dv: u64 = (cu - 0x30) as u64;
        proof {
            assert(d.take(i - start + 1).drop_last() =~= d.take(i - start));
            assert(d.take(i - start + 1).last() == d[i - start]);
        }
        if acc > (limit - dv) / 10 {
            proof {
                assert(acc * 10 + dv > limit) by (nonlinear_arith)
                    requires
                        acc > (limit - dv) / 10,
                        dv <= limit,
                        limit <= 0x8000000000000000u64,
                ;
                assert(digits_num(d.take(i - start + 1)) > limit);
                if is_digits(d) {
                    lemma_digits_num_monotonic(d, i - start + 1);
                }
            }
            return None;
        }
        proof {
            assert(acc * 10 + dv <= limit) by (nonlinear_arith)
                requires
                    acc <= (limit - dv) / 10,
                    dv <= limit,
                    limit <= 0x8000000000000000u64,
            ;
        }
        acc = acc * 10 + dv;
        i += 1;
    }
    proof {
        assert(d.take(n - start) =~= d);
        assert(is_digits(d));
        lemma_digits_num_nonneg(d);
    }
    if neg {
        if acc == 0x8000000000000000 {
            Some(i64::MIN)
        } else {
            Some(-(acc as i64))
        }
    } else {
        Some(acc as i64)
    }
}

/// The characters of a string, as a vector.
pub fn string_chars(s: &String) -> (r: Vec<char>)
    ensures
        r@ == s@,
{
    let st = s.as_str();
    let n = st.unicode_len();
    let mut r: Vec<char> = Vec::new();
    let mut i: usize = 0;
    while i < n
        invariant
            st@ == s@,
            n == s@.len(),
            i <= n,
            r@ == s@.take(i as int),
        decreases n - i,
    {
        r.push(st.get_char(i));
        proof {
            assert(s@.take(i + 1) =~= s@.take(i as int).push(s@[i as int]));
        }
        i += 1;
    }
    proof {
        assert(s@.take(n as int) =~= s@);
    }
    r
}

} // verus!
