//! The task specification locked for a turn: required signatures, the
//! baseline of existing signatures, and the deterministic gate that checks
//! a proposed patch against both.
use vstd::prelude::*;
use vstd::string::StrSliceExecFns;
use vstd::string::StringSliceAdditionalSpecFns;
use crate::text::{chars_of, owned, has_prefix, is_ws, is_whitespace, push_str, push_char, push_decimal, dec, string_of};
use crate::textops::{trim_start_ws, trim_str, replace_char, replaced_range, has_suffix, ends_with, trim_ws, trim_bounds, range_eq_str, find_seq, lemma_find_seq, find_from, index_of, index_of_char, lemma_index_of, unicode_alphanumeric, unicode_alphabetic, is_alphanumeric, is_alphabetic, sub_vec, strip_prefixes, starts_with_str};
use crate::repo::contract::{words_from, word_end};
use crate::repo::contract::{ParamSpec, ParamView, param_view, params_view, RequiredMethod, MethodView, method_view, ot};
use crate::repo::context::{join, texts, push_joined, trim_char, trim_char_bounds, FileInfo, Symbol, SymView, sym_view};
use vstd::utf8::encode_utf8;
use crate::ui::engine::widgets::{split_lines, text_lines};
use crate::repo::contract::{TaskContract, contract_of, contract_prompt};
use crate::repo::baseline::Baseline;

verus! {

/// The receiver of a method signature.
#[derive(Debug, Clone, Copy, PartialEq, Eq, Structural)]
pub enum SelfKind {
    ByRef,
    ByMutRef,
    Owned,
    OwnedMut,
}

/// The receiver a trimmed token spells, if any.
pub open spec fn self_kind_of(t: Seq<char>) -> Option<SelfKind> {
    if t == "&self"@ {
        Some(SelfKind::ByRef)
    } else if t == "&mut self"@ {
        Some(SelfKind::ByMutRef)
    } else if t == "self"@ {
        Some(SelfKind::Owned)
    } else if t == "mut self"@ {
        Some(SelfKind::OwnedMut)
    } else {
        None
    }
}

/// How a receiver is written.
pub open spec fn self_kind_text(k: SelfKind) -> Seq<char> {
    match k {
        SelfKind::ByRef => "&self"@,
        SelfKind::ByMutRef => "&mut self"@,
        SelfKind::Owned => "self"@,
        SelfKind::OwnedMut => "mut self"@,
    }
}

impl SelfKind {
    /// The receiver a token spells once trimmed (see `self_kind_of`).
    pub fn parse(token: &str) -> (r: Option<SelfKind>)
        ensures
            r == self_kind_of(trim_ws(token@)),
    {
        let v = chars_of(token);
        let (a, b) = trim_bounds(v.as_slice(), 0, v.len());
        assert(v@.subrange(0, v@.len() as int) =~= v@);
        if range_eq_str(v.as_slice(), a, b, "&self") {
            Some(SelfKind::ByRef)
        } else if range_eq_str(v.as_slice(), a, b, "&mut self") {
            Some(SelfKind::ByMutRef)
        } else if range_eq_str(v.as_slice(), a, b, "self") {
            Some(SelfKind::Owned)
        } else if range_eq_str(v.as_slice(), a, b, "mut self") {
            Some(SelfKind::OwnedMut)
        } else {
            None
        }
    }

    /// How the receiver is written.
    pub fn as_str(&self) -> (s: &'static str)
        ensures
            s@ == self_kind_text(*self),
    {
        match self {
            SelfKind::ByRef => "&self",
            SelfKind::ByMutRef => "&mut self",
            SelfKind::Owned => "self",
            SelfKind::OwnedMut => "mut self",
        }
    }
}


/// A parsed function or method signature.
#[derive(Debug, Clone, PartialEq, Eq)]
pub struct FnSignature {
    pub name: String,
    pub self_kind: Option<SelfKind>,
    /// Parameters other than the receiver, in order.
    pub params: Vec<ParamSpec>,
    /// The return type, when there is a `->` clause.
    pub return_type: Option<String>,
}

/// A signature as name, receiver, parameters and return type.
pub type SigView = (Seq<char>, Option<SelfKind>, Seq<ParamView>, Option<Seq<char>>);

/// The view of a signature.
pub open spec fn sig_view(g: FnSignature) -> SigView {
    (g.name@, g.self_kind, params_view(g.params@), ot(g.return_type))
}

/// A type with all whitespace removed.
pub open spec fn norm(t: Seq<char>) -> Seq<char>
    decreases t.len(),
{
    if t.len() == 0 {
        Seq::empty()
    } else if is_ws(t.last()) {
        norm(t.drop_last())
    } else {
        norm(t.drop_last()).push(t.last())
    }
}

/// A type without whitespace (see `norm`).
pub fn norm_type(t: &str) -> (r: String)
    ensures
        r@ == norm(t@),
{
    let v = chars_of(t);
    let mut out = String::new();
    let mut i: usize = 0;
    while i < v.len()
        invariant
            i <= v@.len(),
            out@ == norm(v@.subrange(0, i as int)),
        decreases v@.len() - i,
    {
        assert(v@.subrange(0, i + 1).drop_last() =~= v@.subrange(0, i as int));
        if !is_whitespace(v[i]) {
            push_char(&mut out, v[i]);
        }
        i += 1;
    }
    assert(v@.subrange(0, i as int) =~= v@);
    out
}

/// Parameters agree pairwise: same or wildcard (`_`) names and the same
/// types up to whitespace.
pub open spec fn params_match(a: Seq<ParamView>, b: Seq<ParamView>) -> bool {
    &&& a.len() == b.len()
    &&& forall|i: int| 0 <= i < a.len() ==> {
        &&& ((#[trigger] a[i]).0 == b[i].0 || a[i].0 == "_"@ || b[i].0 == "_"@)
        &&& norm(a[i].1) == norm(b[i].1)
    }
}

/// Structural agreement of two signatures: same receiver, matching
/// parameters, and the same return types when both name one.
pub open spec fn sig_matches(x: SigView, y: SigView) -> bool {
    &&& x.1 == y.1
    &&& params_match(x.2, y.2)
    &&& match (x.3, y.3) {
        (Some(a), Some(b)) => norm(a) == norm(b),
        _ => true,
    }
}

/// The rendering of parameters after `out`: `, ` before each unless `out`
/// ends with `(`.
pub open spec fn render_params(out: Seq<char>, ps: Seq<ParamView>) -> Seq<char>
    decreases ps.len(),
{
    if ps.len() == 0 {
        out
    } else {
        let sep = if out.len() > 0 && out.last() == '(' { Seq::empty() } else { ", "@ };
        render_params(out + sep + ps[0].0 + ": "@ + ps[0].1, ps.drop_first())
    }
}

/// The canonical rendering of a signature.
pub open spec fn render_sig(g: SigView) -> Seq<char> {
    render_params(g.0 + "("@ + (match g.1 { Some(k) => self_kind_text(k), None => Seq::empty() }), g.2) + ")"@
        + (match g.3 { Some(r) => " -> "@ + r, None => Seq::empty() })
}

fn eq_norm(a: &String, b: &String) -> (r: bool)
    ensures
        r == (norm(a@) == norm(b@)),
{
    let x = norm_type(a.as_str());
    let y = norm_type(b.as_str());
    x == y
}

impl FnSignature {
    /// The canonical rendering (see `render_sig`).
    pub fn render(&self) -> (out: String)
        ensures
            out@ == render_sig(sig_view(*self)),
    {
        let mut out = self.name.clone();
        push_str(&mut out, "(");
        match &self.self_kind {
            Some(k) => push_str(&mut out, k.as_str()),
            None => {},
        }
        let ghost ps = params_view(self.params@);
        let ghost goal = render_params(out@, ps);
        let mut i: usize = 0;
        assert(ps.subrange(0, ps.len() as int) =~= ps);
        while i < self.params.len()
            invariant
                i <= self.params@.len(),
                ps == params_view(self.params@),
                render_params(out@, ps.subrange(i as int, ps.len() as int)) == goal,
            decreases self.params@.len() - i,
        {
            let ghost before = out@;
            let ghost rest = ps.subrange(i as int, ps.len() as int);
            assert(rest.drop_first() =~= ps.subrange(i + 1, ps.len() as int));
            assert(rest[0] == (self.params@[i as int].name@, self.params@[i as int].param_type@));
            let oc = chars_of(out.as_str());
            let n = oc.len();
            if !(n > 0 && oc[n - 1] == '(') {
                push_str(&mut out, ", ");
            }
            push_str(&mut out, self.params[i].name.as_str());
            push_str(&mut out, ": ");
            push_str(&mut out, self.params[i].param_type.as_str());
            proof {
                let sep = if before.len() > 0 && before.last() == '(' { Seq::<char>::empty() } else { ", "@ };
                assert(out@ =~= before + sep + rest[0].0 + ": "@ + rest[0].1);
            }
            i += 1;
        }
        push_str(&mut out, ")");
        match &self.return_type {
            Some(r) => {
                push_str(&mut out, " -> ");
                push_str(&mut out, r.as_str());
            },
            None => {},
        }
        out
    }

    /// Whether this signature agrees with `other` (see `sig_matches`): an
    /// unspecified return type on either side is a wildcard.
    pub fn matches_required(&self, other: &FnSignature) -> (b: bool)
        ensures
            b == sig_matches(sig_view(*self), sig_view(*other)),
    {
        if self.self_kind != other.self_kind || self.params.len() != other.params.len() {
            return false;
        }
        let ghost a = params_view(self.params@);
        let ghost b = params_view(other.params@);
        let mut i: usize = 0;
        while i < self.params.len()
            invariant
                i <= self.params@.len(),
                self.params@.len() == other.params@.len(),
                a == params_view(self.params@),
                b == params_view(other.params@),
                forall|k: int| 0 <= k < i ==> {
                    &&& ((#[trigger] a[k]).0 == b[k].0 || a[k].0 == "_"@ || b[k].0 == "_"@)
                    &&& norm(a[k].1) == norm(b[k].1)
                },
            decreases self.params@.len() - i,
        {
            let pa = &self.params[i];
            let pb = &other.params[i];
            assert(a[i as int] == (pa.name@, pa.param_type@));
            assert(b[i as int] == (pb.name@, pb.param_type@));
            let names_ok = pa.name == pb.name || pa.name.as_str().unicode_len() == 1 && pa.name.as_str().get_char(0) == '_'
                || pb.name.as_str().unicode_len() == 1 && pb.name.as_str().get_char(0) == '_';
            proof {
                reveal_strlit("_");
                if pa.name@.len() == 1 && pa.name@[0] == '_' {
                    assert(pa.name@ =~= "_"@);
                }
                if pb.name@.len() == 1 && pb.name@[0] == '_' {
                    assert(pb.name@ =~= "_"@);
                }
            }
            if !(names_ok && eq_norm(&pa.param_type, &pb.param_type)) {
                return false;
            }
            i += 1;
        }
        match (&self.return_type, &other.return_type) {
            (Some(x), Some(y)) => eq_norm(x, y),
            _ => true,
        }
    }
}


/// How often `x` occurs.
pub open spec fn count_in(xs: Seq<Seq<char>>, x: Seq<char>) -> nat
    decreases xs.len(),
{
    if xs.len() == 0 { 0 } else { count_in(xs.drop_last(), x) + if xs.last() == x { 1nat } else { 0nat } }
}

/// The same elements, each as often: equal lengths, and every element of
/// `a` as often in `b` as in `a`.
pub open spec fn same_bag(a: Seq<Seq<char>>, b: Seq<Seq<char>>) -> bool {
    a.len() == b.len() && forall|i: int| 0 <= i < a.len() ==> count_in(a, #[trigger] a[i]) == count_in(b, a[i])
}

/// The parameter types without whitespace.
pub open spec fn norm_types(ps: Seq<ParamView>) -> Seq<Seq<char>> {
    ps.map_values(|p: ParamView| norm(p.1))
}

/// Parameters as `name: Type`, comma-separated.
pub open spec fn fmt_params(ps: Seq<ParamView>) -> Seq<char> {
    join(ps.map_values(|p: ParamView| p.0 + ": "@ + p.1), ", "@)
}

/// A receiver as written, or `(none)`.
pub open spec fn receiver_text(k: Option<SelfKind>) -> Seq<char> {
    match k {
        Some(x) => self_kind_text(x),
        None => "(none)"@,
    }
}

/// The per-parameter differences from position `i` on.
pub open spec fn param_diffs(a: Seq<ParamView>, b: Seq<ParamView>, i: int) -> Seq<Seq<char>>
    decreases a.len() - i,
{
    if i < 0 || i >= a.len() || i >= b.len() {
        Seq::empty()
    } else {
        let x = a[i];
        let y = b[i];
        let line = if norm(x.1) != norm(y.1) {
            seq!["- parameter "@ + dec((i + 1) as nat) + " (`"@ + x.0 + "`): expected type `"@ + x.1 + "`, found `"@ + y.1 + "`"@]
        } else if x.0 != y.0 && x.0 != "_"@ && y.0 != "_"@ {
            seq!["- parameter "@ + dec((i + 1) as nat) + ": expected name `"@ + x.0 + "`, found `"@ + y.0 + "`"@]
        } else {
            Seq::empty()
        };
        line + param_diffs(a, b, i + 1)
    }
}

/// The lines describing how a proposed signature differs from the
/// required one.
pub open spec fn diff_lines(req: SigView, prop: SigView) -> Seq<Seq<char>> {
    let l1 = if req.1 != prop.1 {
        seq!["- receiver: expected `"@ + receiver_text(req.1) + "`, found `"@ + receiver_text(prop.1) + "`"@]
    } else {
        Seq::empty()
    };
    let l2 = if req.2.len() != prop.2.len() {
        seq!["- parameters: expected ["@ + fmt_params(req.2) + "], found ["@ + fmt_params(prop.2) + "]"@]
    } else {
        Seq::empty()
    };
    let l3 = if req.2.len() == prop.2.len() && req.2.len() > 0 && same_bag(norm_types(req.2), norm_types(prop.2))
        && (exists|i: int| 0 <= i < req.2.len() && (#[trigger] req.2[i]).0 != prop.2[i].0) {
        seq!["- parameter placement/order changed"@]
    } else {
        Seq::empty()
    };
    let l5 = match (req.3, prop.3) {
        (Some(r), Some(p)) => if norm(r) != norm(p) {
            seq!["- return type: expected `"@ + r + "`, found `"@ + p + "`"@]
        } else {
            Seq::empty()
        },
        (Some(r), None) => seq!["- return type: expected `"@ + r + "`, found none"@],
        (None, Some(p)) => seq!["- return type: expected none, found `"@ + p + "`"@],
        (None, None) => Seq::empty(),
    };
    let all = l1 + l2 + l3 + param_diffs(req.2, prop.2, 0) + l5;
    if all.len() == 0 { seq!["- signature shape differs"@] } else { all }
}

fn normalized_types(ps: &Vec<ParamSpec>) -> (r: Vec<String>)
    ensures
        texts(r@) == norm_types(params_view(ps@)),
{
    let mut r: Vec<String> = Vec::new();
    let mut i: usize = 0;
    while i < ps.len()
        invariant
            i <= ps@.len(),
            texts(r@) == norm_types(params_view(ps@)).subrange(0, i as int),
        decreases ps@.len() - i,
    {
        assert(params_view(ps@)[i as int] == (ps@[i as int].name@, ps@[i as int].param_type@));
        assert(norm_types(params_view(ps@))[i as int] == norm(ps@[i as int].param_type@));
        let ghost before = texts(r@);
        let nt = norm_type(ps[i].param_type.as_str());
        r.push(nt);
        assert(texts(r@) =~= before.push(nt@));
        assert(before.push(nt@) =~= norm_types(params_view(ps@)).subrange(0, i + 1));
        i += 1;
    }
    r
}

fn count_of(xs: &Vec<String>, x: &String) -> (n: usize)
    ensures
        n == count_in(texts(xs@), x@),
{
    let mut n: usize = 0;
    let mut i: usize = 0;
    while i < xs.len()
        invariant
            i <= xs@.len(),
            n == count_in(texts(xs@).subrange(0, i as int), x@),
            n <= i,
        decreases xs@.len() - i,
    {
        assert(texts(xs@).subrange(0, i + 1).drop_last() =~= texts(xs@).subrange(0, i as int));
        if xs[i] == *x {
            n += 1;
        }
        i += 1;
    }
    assert(texts(xs@).subrange(0, i as int) =~= texts(xs@));
    n
}

/// Whether two parameter lists have the same types up to order and
/// whitespace (see `same_bag`).
pub fn same_multiset(a: &Vec<ParamSpec>, b: &Vec<ParamSpec>) -> (r: bool)
    ensures
        r == same_bag(norm_types(params_view(a@)), norm_types(params_view(b@))),
{
    let x = normalized_types(a);
    let y = normalized_types(b);
    if x.len() != y.len() {
        return false;
    }
    let mut i: usize = 0;
    while i < x.len()
        invariant
            i <= x@.len(),
            x@.len() == y@.len(),
            texts(x@) == norm_types(params_view(a@)),
            texts(y@) == norm_types(params_view(b@)),
            forall|k: int| 0 <= k < i ==> count_in(texts(x@), #[trigger] texts(x@)[k]) == count_in(texts(y@), texts(x@)[k]),
        decreases x@.len() - i,
    {
        assert(texts(x@)[i as int] == x@[i as int]@);
        if count_of(&x, &x[i]) != count_of(&y, &x[i]) {
            return false;
        }
        i += 1;
    }
    true
}

fn is_wildcard(s: &String) -> (b: bool)
    ensures
        b == (s@ == "_"@),
{
    let v = chars_of(s.as_str());
    assert(v@.subrange(0, v@.len() as int) =~= v@);
    range_eq_str(v.as_slice(), 0, v.len(), "_")
}

fn push_receiver(out: &mut String, k: &Option<SelfKind>)
    ensures
        final(out)@ == old(out)@ + receiver_text(*k),
{
    match k {
        Some(x) => push_str(out, x.as_str()),
        None => push_str(out, "(none)"),
    }
}

fn push_fmt_params(out: &mut String, ps: &Vec<ParamSpec>)
    ensures
        final(out)@ == old(out)@ + fmt_params(params_view(ps@)),
{
    let mut items: Vec<String> = Vec::new();
    let mut i: usize = 0;
    while i < ps.len()
        invariant
            i <= ps@.len(),
            texts(items@) == params_view(ps@).map_values(|p: ParamView| p.0 + ": "@ + p.1).subrange(0, i as int),
        decreases ps@.len() - i,
    {
        let mut t = ps[i].name.clone();
        push_str(&mut t, ": ");
        push_str(&mut t, ps[i].param_type.as_str());
        assert(params_view(ps@)[i as int] == (ps@[i as int].name@, ps@[i as int].param_type@));
        assert(params_view(ps@).map_values(|p: ParamView| p.0 + ": "@ + p.1)[i as int] == t@);
        let ghost before = texts(items@);
        let ghost tv = t@;
        items.push(t);
        assert(texts(items@) =~= before.push(tv));
        assert(before.push(tv) =~= params_view(ps@).map_values(|p: ParamView| p.0 + ": "@ + p.1).subrange(0, i + 1));
        i += 1;
    }
    assert(params_view(ps@).map_values(|p: ParamView| p.0 + ": "@ + p.1).subrange(0, i as int)
        =~= params_view(ps@).map_values(|p: ParamView| p.0 + ": "@ + p.1));
    push_joined(out, &items, ", ");
}

fn push_line(lines: &mut Vec<String>, l: String)
    ensures
        texts(final(lines)@) == texts(old(lines)@) + seq![l@],
{
    let ghost before = texts(lines@);
    lines.push(l);
    assert(texts(lines@) =~= before + seq![l@]);
}

/// How a proposed signature differs from the required one, one line per
/// difference (see `diff_lines`).
#[verifier::spinoff_prover]
#[verifier::rlimit(60)]
pub fn describe_diff(req: &FnSignature, prop: &FnSignature) -> (out: String)
    ensures
        out@ == join(diff_lines(sig_view(*req), sig_view(*prop)), "\n"@),
{
    let ghost rv = sig_view(*req);
    let ghost pv = sig_view(*prop);
    let mut lines: Vec<String> = Vec::new();
    assert(texts(lines@) =~= Seq::<Seq<char>>::empty());
    if req.self_kind != prop.self_kind {
        let mut l = owned("- receiver: expected `");
        push_receiver(&mut l, &req.self_kind);
        push_str(&mut l, "`, found `");
        push_receiver(&mut l, &prop.self_kind);
        push_str(&mut l, "`");
        push_line(&mut lines, l);
    }
    let ghost l1 = texts(lines@);
    if req.params.len() != prop.params.len() {
        let mut l = owned("- parameters: expected [");
        push_fmt_params(&mut l, &req.params);
        push_str(&mut l, "], found [");
        push_fmt_params(&mut l, &prop.params);
        push_str(&mut l, "]");
        push_line(&mut lines, l);
    }
    let ghost l12 = texts(lines@);
    if req.params.len() == prop.params.len() && req.params.len() > 0 && same_multiset(&req.params, &prop.params) {
        let mut any = false;
        let mut i: usize = 0;
        while i < req.params.len()
            invariant
                i <= req.params@.len(),
                req.params@.len() == prop.params@.len(),
                rv == sig_view(*req),
                pv == sig_view(*prop),
                any <==> (exists|k: int| 0 <= k < i && (#[trigger] rv.2[k]).0 != pv.2[k].0),
            decreases req.params@.len() - i,
        {
            assert(rv.2[i as int].0 == req.params@[i as int].name@);
            assert(pv.2[i as int].0 == prop.params@[i as int].name@);
            if req.params[i].name != prop.params[i].name {
                any = true;
            }
            i += 1;
        }
        if any {
            push_line(&mut lines, owned("- parameter placement/order changed"));
        }
    }
    let ghost l123 = texts(lines@);
    let n = if req.params.len() < prop.params.len() { req.params.len() } else { prop.params.len() };
    let mut i: usize = 0;
    assert(l123 + param_diffs(rv.2, pv.2, 0) == texts(lines@) + param_diffs(rv.2, pv.2, 0));
    while i < n
        invariant
            i <= n,
            n <= req.params@.len(),
            n <= prop.params@.len(),
            n == req.params@.len() || n == prop.params@.len(),
            rv == sig_view(*req),
            pv == sig_view(*prop),
            texts(lines@) + param_diffs(rv.2, pv.2, i as int) == l123 + param_diffs(rv.2, pv.2, 0),
        decreases n - i,
    {
        let a = &req.params[i];
        let b = &prop.params[i];
        assert(rv.2[i as int] == (a.name@, a.param_type@));
        assert(pv.2[i as int] == (b.name@, b.param_type@));
        let ghost before = texts(lines@);
        if !eq_norm(&a.param_type, &b.param_type) {
            let mut l = owned("- parameter ");
            push_decimal(&mut l, (i + 1) as u64);
            push_str(&mut l, " (`");
            push_str(&mut l, a.name.as_str());
            push_str(&mut l, "`): expected type `");
            push_str(&mut l, a.param_type.as_str());
            push_str(&mut l, "`, found `");
            push_str(&mut l, b.param_type.as_str());
            push_str(&mut l, "`");
            push_line(&mut lines, l);
        } else if a.name != b.name && !is_wildcard(&a.name) && !is_wildcard(&b.name) {
            let mut l = owned("- parameter ");
            push_decimal(&mut l, (i + 1) as u64);
            push_str(&mut l, ": expected name `");
            push_str(&mut l, a.name.as_str());
            push_str(&mut l, "`, found `");
            push_str(&mut l, b.name.as_str());
            push_str(&mut l, "`");
            push_line(&mut lines, l);
        }
        proof {
            let tail = param_diffs(rv.2, pv.2, i + 1);
            assert(texts(lines@) + tail =~= before + param_diffs(rv.2, pv.2, i as int));
        }
        i += 1;
    }
    assert(param_diffs(rv.2, pv.2, i as int) =~= Seq::<Seq<char>>::empty());
    match (&req.return_type, &prop.return_type) {
        (Some(r), Some(p)) => {
            if !eq_norm(r, p) {
                let mut l = owned("- return type: expected `");
                push_str(&mut l, r.as_str());
                push_str(&mut l, "`, found `");
                push_str(&mut l, p.as_str());
                push_str(&mut l, "`");
                push_line(&mut lines, l);
            }
        },
        (Some(r), None) => {
            let mut l = owned("- return type: expected `");
            push_str(&mut l, r.as_str());
            push_str(&mut l, "`, found none");
            push_line(&mut lines, l);
        },
        (None, Some(p)) => {
            let mut l = owned("- return type: expected none, found `");
            push_str(&mut l, p.as_str());
            push_str(&mut l, "`");
            push_line(&mut lines, l);
        },
        (None, None) => {},
    }
    if lines.len() == 0 {
        push_line(&mut lines, owned("- signature shape differs"));
    }
    let mut out = String::new();
    push_joined(&mut out, &lines, "\n");
    out
}


/// The text `String::from_utf8_lossy` decodes from bytes.
pub uninterp spec fn utf8_lossy(b: Seq<u8>) -> Seq<char>;

/// `String::from_utf8_lossy`: the text of the bytes, with each invalid
/// sequence replaced by U+FFFD; valid UTF-8 decodes exactly. Every
/// character, decoded or replaced, stands for at least one byte.
#[verifier::external_body]
pub(crate) fn lossy_text(b: &[u8]) -> (s: String)
    ensures
        s@ == utf8_lossy(b@),
        vstd::utf8::valid_utf8(b@) ==> s@ == vstd::utf8::decode_utf8(b@),
        s@.len() <= b@.len(),
{
    String::from_utf8_lossy(b).to_string()
}

/// A byte that reads as whitespace when taken as a character.
pub open spec fn ws_byte(b: u8) -> bool {
    is_ws(b as char)
}

/// A byte that reads as a letter, digit or `_` when taken as a character.
pub open spec fn ident_byte(b: u8) -> bool {
    unicode_alphanumeric(b as char) || b == 95u8
}

/// The first non-whitespace byte at or after `p`.
pub open spec fn ws_run(s: Seq<u8>, p: int) -> int
    decreases s.len() - p,
{
    if 0 <= p < s.len() && ws_byte(s[p]) { ws_run(s, p + 1) } else { p }
}

/// The first newline at or after `p`, or the end.
pub open spec fn line_end(s: Seq<u8>, p: int) -> int
    decreases s.len() - p,
{
    if 0 <= p < s.len() && s[p] != 10u8 { line_end(s, p + 1) } else { p }
}

/// Where `*/` starts at or after `p`, or the last byte.
pub open spec fn block_end(s: Seq<u8>, p: int) -> int
    decreases s.len() - p,
{
    if 0 <= p && p + 1 < s.len() && !(s[p] == 42u8 && s[p + 1] == 47u8) { block_end(s, p + 1) } else { p }
}

/// Past whitespace and comments.
pub open spec fn skip_trivia(s: Seq<u8>, pos: int) -> int
    decreases s.len() - pos,
{
    let p = ws_run(s, pos);
    if 0 <= p && p + 1 < s.len() && s[p] == 47u8 && s[p + 1] == 47u8 {
        let next = line_end(s, p);
        if pos < next <= s.len() { skip_trivia(s, next) } else { next }
    } else if 0 <= p && p + 1 < s.len() && s[p] == 47u8 && s[p + 1] == 42u8 {
        let q = block_end(s, p + 2);
        let next = if q + 2 < s.len() { q + 2 } else { s.len() as int };
        if pos < next <= s.len() { skip_trivia(s, next) } else { next }
    } else {
        p
    }
}

/// The end of the run of identifier bytes at `p`.
pub open spec fn ident_end(s: Seq<u8>, p: int) -> int
    decreases s.len() - p,
{
    if 0 <= p < s.len() && ident_byte(s[p]) { ident_end(s, p + 1) } else { p }
}

/// Just after the string literal whose text starts at `p` (a backslash
/// skips the next byte); possibly one past the end.
pub open spec fn string_end(s: Seq<u8>, p: int) -> int
    decreases s.len() + 1 - p,
{
    if p < 0 || p >= s.len() {
        p
    } else if s[p] == 92u8 {
        string_end(s, p + 2)
    } else if s[p] == 34u8 {
        p + 1
    } else {
        string_end(s, p + 1)
    }
}

/// After a quote at `save`: just past a character literal closing within
/// six steps on the line, else just past the quote (a lifetime).
pub open spec fn char_lit_end(s: Seq<u8>, p: int, steps: int, save: int) -> int
    decreases s.len() + 1 - p,
{
    if p < 0 || p >= s.len() || steps >= 6 {
        save + 1
    } else if s[p] == 92u8 {
        char_lit_end(s, p + 2, steps + 1, save)
    } else if s[p] == 39u8 {
        p + 1
    } else if s[p] == 10u8 {
        save + 1
    } else {
        char_lit_end(s, p + 1, steps + 1, save)
    }
}

/// Scanning a parenthesized group: the byte range of the group up to its
/// matching `)`, or `None` at a top-level `{`/`;` or the end; with where
/// the scan stopped.
pub open spec fn parens_scan(s: Seq<u8>, p: int, start: int, paren: int, angle: int) -> (Option<(int, int)>, int)
    decreases s.len() + 2 - p,
{
    if p < 0 || p >= s.len() {
        (None, p)
    } else {
        let c = s[p];
        if c == 34u8 {
            let q = string_end(s, p + 1) + 1;
            if p < q <= s.len() + 2 { parens_scan(s, q, start, paren, angle) } else { (None, q) }
        } else if c == 39u8 {
            let q = char_lit_end(s, p + 1, 0, p);
            if p < q <= s.len() + 2 { parens_scan(s, q, start, paren, angle) } else { (None, q) }
        } else if c == 47u8 && p + 1 < s.len() && s[p + 1] == 47u8 {
            let q = line_end(s, p);
            if p < q <= s.len() { parens_scan(s, q, start, paren, angle) } else { (None, q) }
        } else if c == 40u8 {
            parens_scan(s, p + 1, start, paren + 1, angle)
        } else if c == 41u8 {
            if paren - 1 == 0 { (Some((start, p + 1)), p + 1) } else { parens_scan(s, p + 1, start, paren - 1, angle) }
        } else if c == 60u8 {
            parens_scan(s, p + 1, start, paren, angle + 1)
        } else if c == 62u8 && angle > 0 {
            parens_scan(s, p + 1, start, paren, angle - 1)
        } else if (c == 123u8 || c == 59u8) && paren <= 0 {
            (None, p)
        } else {
            parens_scan(s, p + 1, start, paren, angle)
        }
    }
}

/// The parenthesized group at the next non-trivia byte, if it is `(`.
pub open spec fn read_parens(s: Seq<u8>, pos: int) -> (Option<(int, int)>, int) {
    let p = skip_trivia(s, pos);
    if 0 <= p < s.len() && s[p] == 40u8 { parens_scan(s, p, p, 0, 0) } else { (None, p) }
}

/// Where a return type that starts at `p` ends: at `//`, or at a
/// top-level `{`/`;`, or at (or past) the end.
pub open spec fn ret_scan(s: Seq<u8>, p: int, angle: int) -> int
    decreases s.len() + 2 - p,
{
    if p < 0 || p >= s.len() {
        p
    } else {
        let c = s[p];
        if c == 34u8 {
            let q = string_end(s, p + 1) + 1;
            if p < q <= s.len() + 2 { ret_scan(s, q, angle) } else { q }
        } else if c == 47u8 && p + 1 < s.len() && s[p + 1] == 47u8 {
            p
        } else if c == 60u8 {
            ret_scan(s, p + 1, angle + 1)
        } else if c == 62u8 && angle > 0 {
            ret_scan(s, p + 1, angle - 1)
        } else if (c == 123u8 || c == 59u8) && angle <= 0 {
            p
        } else {
            ret_scan(s, p + 1, angle)
        }
    }
}

/// The return type after `->` at the next non-trivia byte: the byte range
/// of its text (which may run past the end), and where the scan stopped.
pub open spec fn read_return(s: Seq<u8>, pos: int) -> (Option<(int, int)>, int) {
    let p = skip_trivia(s, pos);
    if 0 <= p && p + 2 <= s.len() && s[p] == 45u8 && s[p + 1] == 62u8 {
        let e = ret_scan(s, p + 2, 0);
        (Some((p + 2, e)), e)
    } else {
        (None, p)
    }
}

/// The pieces of a parameter list split at commas outside `()`, `[]` and
/// `<>`, skipping string and character literals; the last piece is always
/// kept.
pub open spec fn arg_pieces(s: Seq<char>, i: int, last: int, paren: int, bracket: int, angle: int) -> Seq<Seq<char>>
    decreases s.len() + 2 - i,
{
    if i < 0 || i >= s.len() || last < 0 || last > s.len() {
        seq![s.subrange(if 0 <= last <= s.len() { last } else { s.len() as int }, s.len() as int)]
    } else {
        let c = s[i];
        if c == '"' || c == '\'' {
            let q = lit_end(s, i + 1, c) + 1;
            if i < q <= s.len() + 2 { arg_pieces(s, q, last, paren, bracket, angle) } else { seq![s.subrange(last, s.len() as int)] }
        } else if c == '(' {
            arg_pieces(s, i + 1, last, paren + 1, bracket, angle)
        } else if c == ')' {
            arg_pieces(s, i + 1, last, paren - 1, bracket, angle)
        } else if c == '[' {
            arg_pieces(s, i + 1, last, paren, bracket + 1, angle)
        } else if c == ']' {
            arg_pieces(s, i + 1, last, paren, bracket - 1, angle)
        } else if c == '<' {
            arg_pieces(s, i + 1, last, paren, bracket, angle + 1)
        } else if c == '>' && angle > 0 {
            arg_pieces(s, i + 1, last, paren, bracket, angle - 1)
        } else if c == ',' && paren == 0 && bracket == 0 && angle == 0 {
            seq![s.subrange(last, i)] + arg_pieces(s, i + 1, i + 1, paren, bracket, angle)
        } else {
            arg_pieces(s, i + 1, last, paren, bracket, angle)
        }
    }
}

/// Where a literal whose text starts at `i` and closes with `q` ends (at
/// the closing quote, a backslash skipping the next character); possibly
/// past the end.
pub open spec fn lit_end(s: Seq<char>, i: int, q: char) -> int
    decreases s.len() + 1 - i,
{
    if i < 0 || i >= s.len() || s[i] == q {
        i
    } else if s[i] == '\\' {
        lit_end(s, i + 2, q)
    } else {
        lit_end(s, i + 1, q)
    }
}

/// The receiver and parameters of parameter pieces: empty pieces are
/// skipped, a receiver sets the receiver, `name: Type` (after an optional
/// `mut `) adds a parameter unless the name is empty, and `_` adds `_: ()`.
pub open spec fn sig_params(parts: Seq<Seq<char>>, i: int, sk: Option<SelfKind>, ps: Seq<ParamView>) -> (Option<SelfKind>, Seq<ParamView>)
    decreases parts.len() - i,
{
    if i < 0 || i >= parts.len() {
        (sk, ps)
    } else {
        let p = trim_ws(parts[i]);
        if p.len() == 0 {
            sig_params(parts, i + 1, sk, ps)
        } else if self_kind_of(trim_ws(p)) is Some {
            sig_params(parts, i + 1, self_kind_of(trim_ws(p)), ps)
        } else {
            let q = trim_ws(if has_prefix(p, "mut "@) { p.subrange(4, p.len() as int) } else { p });
            let colon = index_of(q, ':', 0);
            if colon < q.len() {
                let n = trim_ws(q.subrange(0, colon));
                if n.len() == 0 {
                    sig_params(parts, i + 1, sk, ps)
                } else {
                    sig_params(parts, i + 1, sk, ps.push((n, trim_ws(q.subrange(colon + 1, q.len() as int)))))
                }
            } else if q == "_"@ {
                sig_params(parts, i + 1, sk, ps.push(("_"@, "()"@)))
            } else {
                sig_params(parts, i + 1, sk, ps)
            }
        }
    }
}

/// The signature after `fn` at `pos`: a name, a parameter group and an
/// optional return type; `None` when the name or group is missing. The
/// flag says whether the return type runs past the end of the text.
pub open spec fn fn_after_name(s: Seq<u8>, pos: int) -> (bool, Option<(SigView, int)>) {
    let p1 = skip_trivia(s, pos);
    let e1 = ident_end(s, p1);
    if e1 == p1 || p1 < 0 || e1 > s.len() {
        (false, None)
    } else {
        let rp = read_parens(s, e1);
        match rp.0 {
            None => (false, None),
            Some(r) => {
                let inner = utf8_lossy(s.subrange(r.0 + 1, r.1 - 1));
                let pp = sig_params(arg_pieces(inner, 0, 0, 0, 0, 0), 0, None, Seq::empty());
                let rt = read_return(s, rp.1);
                match rt.0 {
                    Some(t) => if t.1 > s.len() {
                        (true, None)
                    } else {
                        let text = trim_ws(utf8_lossy(s.subrange(t.0, t.1)));
                        (false, Some(((utf8_lossy(s.subrange(p1, e1)), pp.0, pp.1, if text.len() > 0 { Some(text) } else { None }), rt.1)))
                    },
                    None => (false, Some(((utf8_lossy(s.subrange(p1, e1)), pp.0, pp.1, None), rt.1))),
                }
            },
        }
    }
}

/// The bytes of `impl`.
pub open spec fn impl_bytes() -> Seq<u8> {
    seq![105u8, 109u8, 112u8, 108u8]
}

/// The bytes of `fn`.
pub open spec fn fn_bytes() -> Seq<u8> {
    seq![102u8, 110u8]
}

/// Whether the keyword `kw` stands at `pos` as a whole word.
pub open spec fn keyword_at(s: Seq<u8>, pos: int, kw: Seq<u8>) -> bool {
    &&& 0 <= pos
    &&& pos + kw.len() <= s.len()
    &&& s.subrange(pos, pos + kw.len()) == kw
    &&& (pos == 0 || !ident_byte(s[pos - 1]))
    &&& pos + kw.len() < s.len()
    &&& !ident_byte(s[pos + kw.len()])
}

/// A text with the parts inside angle brackets removed.
pub open spec fn strip_generics(s: Seq<char>, i: int, angle: int) -> Seq<char>
    decreases s.len() - i,
{
    if i < 0 || i >= s.len() {
        Seq::empty()
    } else if s[i] == '<' {
        strip_generics(s, i + 1, angle + 1)
    } else if s[i] == '>' {
        strip_generics(s, i + 1, angle - 1)
    } else if angle > 0 {
        strip_generics(s, i + 1, angle)
    } else {
        seq![s[i]] + strip_generics(s, i + 1, angle)
    }
}

/// The text from `a` on after its last `::` (splitting left to right).
pub open spec fn after_path_seps(t: Seq<char>, a: int) -> Seq<char>
    decreases t.len() - a,
{
    match find_seq(t, "::"@, a) {
        Some(k) => if 0 <= a <= k && k + 2 <= t.len() { after_path_seps(t, k + 2) } else { t.subrange(a, t.len() as int) },
        None => t.subrange(a, t.len() as int),
    }
}

/// The implementing type named by header tokens: `for` forgets what came
/// before it, and each token starting with a letter or `_` becomes the
/// candidate (its last `::` segment).
pub open spec fn impl_candidate(toks: Seq<Seq<char>>, last: Option<Seq<char>>) -> Option<Seq<char>>
    decreases toks.len(),
{
    if toks.len() == 0 {
        last
    } else {
        let t = toks[0];
        let next = if t == "for"@ {
            None
        } else if t.len() > 0 && (unicode_alphabetic(t[0]) || t[0] == '_') {
            Some(after_path_seps(t, 0))
        } else {
            last
        };
        impl_candidate(toks.drop_first(), next)
    }
}

/// The type of the `impl` block whose keyword is at `kw_pos`.
pub open spec fn impl_owner(s: Seq<u8>, kw_pos: int) -> Option<Seq<char>> {
    let rest = utf8_lossy(s.subrange(kw_pos + 4, s.len() as int));
    let end = index_of(rest, '{', 0);
    if end >= rest.len() {
        None
    } else {
        match impl_candidate(words_from(strip_generics(rest.subrange(0, end), 0, 0), 0), None) {
            Some(n) => if n.len() > 0 { Some(n) } else { None },
            None => None,
        }
    }
}

/// A signature with its owner and its source text.
pub type ScopedView = (Option<Seq<char>>, SigView, Seq<char>);

/// The state of the signature scan: the owners of the enclosing blocks,
/// the current owner, an `impl` owner awaiting its block, and the
/// signatures found.
pub struct SigScan {
    pub stack: Seq<Option<Seq<char>>>,
    pub owner: Option<Seq<char>>,
    pub pending: Option<Seq<char>>,
    pub out: Seq<ScopedView>,
}

/// The source text of a signature with whitespace runs squeezed.
pub open spec fn raw_text(s: Seq<u8>, from: int, to: int) -> Seq<char> {
    join(words_from(utf8_lossy(s.subrange(from, if to < s.len() { to } else { s.len() as int })), 0), " "@)
}

/// The signatures found from `pos` on, or `None` when a return type runs
/// past the end of the text (where reading it would slice out of range).
pub open spec fn scan_sigs(s: Seq<u8>, pos: int, st: SigScan) -> Option<Seq<ScopedView>>
    decreases s.len() + 2 - pos,
{
    if pos < 0 || pos >= s.len() {
        Some(st.out)
    } else {
        let c = s[pos];
        if c == 39u8 {
            let q = char_lit_end(s, pos + 1, 0, pos);
            if pos < q <= s.len() + 2 { scan_sigs(s, q, st) } else { Some(st.out) }
        } else if c == 47u8 && pos + 1 < s.len() && s[pos + 1] == 42u8 {
            let q = skip_trivia(s, pos);
            if pos < q <= s.len() + 2 { scan_sigs(s, q, st) } else { Some(st.out) }
        } else if c == 123u8 {
            scan_sigs(s, pos + 1, SigScan { stack: st.stack.push(st.owner), owner: st.pending, pending: None, ..st })
        } else if c == 125u8 {
            let top = if st.stack.len() > 0 { st.stack.last() } else { None };
            scan_sigs(s, pos + 1, SigScan {
                stack: if st.stack.len() > 0 { st.stack.drop_last() } else { st.stack },
                owner: top,
                ..st
            })
        } else {
            let p1 = if c == 34u8 {
                string_end(s, pos + 1)
            } else if c == 47u8 && pos + 1 < s.len() && s[pos + 1] == 47u8 {
                line_end(s, pos)
            } else {
                pos
            };
            let st2 = if keyword_at(s, p1, impl_bytes()) && impl_owner(s, p1) is Some {
                SigScan { pending: impl_owner(s, p1), ..st }
            } else {
                st
            };
            if pos <= p1 <= s.len() + 1 && keyword_at(s, p1, fn_bytes()) {
                let r = fn_after_name(s, p1 + 2);
                if r.0 {
                    None
                } else {
                    match r.1 {
                        Some(x) => if pos < x.1 <= s.len() + 2 {
                            scan_sigs(s, x.1, SigScan { out: st2.out.push((st2.owner, x.0, raw_text(s, p1, x.1))), ..st2 })
                        } else {
                            Some(st2.out)
                        },
                        None => scan_sigs(s, p1 + 1, st2),
                    }
                }
            } else if pos <= p1 <= s.len() + 1 {
                scan_sigs(s, p1 + 1, st2)
            } else {
                Some(st2.out)
            }
        }
    }
}

/// The signatures of a source text from its start.
pub open spec fn scoped_sigs(code: Seq<u8>) -> Option<Seq<ScopedView>> {
    scan_sigs(code, 0, SigScan { stack: Seq::empty(), owner: None, pending: None, out: Seq::empty() })
}


fn is_ws_byte(b: u8) -> (r: bool)
    ensures
        r == ws_byte(b),
{
    is_whitespace(b as char)
}

fn is_ident_byte(b: u8) -> (r: bool)
    ensures
        r == ident_byte(b),
{
    is_alphanumeric(b as char) || b == 95u8
}

fn ws_run_exec(s: &[u8], p: usize) -> (r: usize)
    requires
        p <= s@.len(),
    ensures
        r == ws_run(s@, p as int),
        p <= r <= s@.len(),
{
    let mut q = p;
    while q < s.len() && is_ws_byte(s[q])
        invariant
            p <= q <= s@.len(),
            ws_run(s@, q as int) == ws_run(s@, p as int),
        decreases s@.len() - q,
    {
        q += 1;
    }
    q
}

fn line_end_exec(s: &[u8], p: usize) -> (r: usize)
    requires
        p <= s@.len(),
    ensures
        r == line_end(s@, p as int),
        p <= r <= s@.len(),
{
    let mut q = p;
    while q < s.len() && s[q] != 10u8
        invariant
            p <= q <= s@.len(),
            line_end(s@, q as int) == line_end(s@, p as int),
        decreases s@.len() - q,
    {
        q += 1;
    }
    q
}

fn skip_trivia_exec(s: &[u8], pos: usize) -> (r: usize)
    requires
        pos <= s@.len(),
    ensures
        r == skip_trivia(s@, pos as int),
        pos <= r <= s@.len(),
{
    let n = s.len();
    let mut p = pos;
    loop
        invariant
            pos <= p <= n == s@.len(),
            skip_trivia(s@, p as int) == skip_trivia(s@, pos as int),
        decreases n - p,
    {
        let q = ws_run_exec(s, p);
        if q < n && n - q > 1 && s[q] == 47u8 && s[q + 1] == 47u8 {
            let next = line_end_exec(s, q + 1);
            assert(line_end(s@, q as int) == line_end(s@, q + 1));
            p = next;
        } else if q < n && n - q > 1 && s[q] == 47u8 && s[q + 1] == 42u8 {
            let mut b = q + 2;
            while b < n && n - b > 1 && !(s[b] == 42u8 && s[b + 1] == 47u8)
                invariant
                    q + 2 <= b <= n == s@.len(),
                    block_end(s@, b as int) == block_end(s@, q + 2),
                decreases n - b,
            {
                b += 1;
            }
            let next = if n - b > 2 { b + 2 } else { n };
            p = next;
        } else {
            return q;
        }
    }
}

fn ident_end_exec(s: &[u8], p: usize) -> (r: usize)
    requires
        p <= s@.len(),
    ensures
        r == ident_end(s@, p as int),
        p <= r <= s@.len(),
{
    let mut q = p;
    while q < s.len() && is_ident_byte(s[q])
        invariant
            p <= q <= s@.len(),
            ident_end(s@, q as int) == ident_end(s@, p as int),
        decreases s@.len() - q,
    {
        q += 1;
    }
    q
}

proof fn lemma_string_end(s: Seq<u8>, p: int)
    requires
        0 <= p,
    ensures
        p <= string_end(s, p) <= if p <= s.len() { s.len() as int + 1 } else { p },
    decreases s.len() + 1 - p,
{
    if 0 <= p < s.len() {
        if s[p] == 92u8 {
            lemma_string_end(s, p + 2);
        } else if s[p] != 34u8 {
            lemma_string_end(s, p + 1);
        }
    }
}

fn string_end_exec(s: &[u8], p: usize) -> (r: usize)
    requires
        p <= s@.len(),
        s@.len() < usize::MAX - 4,
    ensures
        r == string_end(s@, p as int),
        p <= r <= s@.len() + 1,
{
    proof { lemma_string_end(s@, p as int); }
    let mut q = p;
    while q < s.len()
        invariant
            p <= q <= s@.len() + 1,
            s@.len() < usize::MAX - 4,
            string_end(s@, q as int) == string_end(s@, p as int),
        decreases s@.len() + 1 - q,
    {
        if s[q] == 92u8 {
            q += 2;
        } else if s[q] == 34u8 {
            return q + 1;
        } else {
            q += 1;
        }
    }
    q
}

fn char_lit_end_exec(s: &[u8], save: usize) -> (r: usize)
    requires
        save < s@.len(),
        s@.len() < usize::MAX - 4,
    ensures
        r == char_lit_end(s@, save + 1, 0, save as int),
        save < r <= s@.len() + 2,
{
    let mut q = save + 1;
    let mut steps: usize = 0;
    while q < s.len() && steps < 6
        invariant
            save < q <= s@.len() + 1,
            steps <= 6,
            s@.len() < usize::MAX - 4,
            char_lit_end(s@, q as int, steps as int, save as int) == char_lit_end(s@, save + 1, 0, save as int),
        decreases s@.len() + 1 - q,
    {
        if s[q] == 92u8 {
            q += 2;
        } else if s[q] == 39u8 {
            return q + 1;
        } else if s[q] == 10u8 {
            return save + 1;
        } else {
            q += 1;
        }
        steps += 1;
    }
    save + 1
}

fn parens_exec(s: &[u8], pos: usize) -> (r: (Option<(usize, usize)>, usize))
    requires
        pos <= s@.len(),
        s@.len() < usize::MAX - 4,
    ensures
        (match r.0 { Some(x) => Some((x.0 as int, x.1 as int)), None => None::<(int, int)> }, r.1 as int) == read_parens(s@, pos as int),
        r.1 <= s@.len() + 2,
        r.0 matches Some(x) ==> x.0 < x.1 <= s@.len() && s@[x.0 as int] == 40u8 && s@[x.1 - 1] == 41u8 && x.1 == r.1 && x.1 >= x.0 + 2,
        r.0 matches Some(x) ==> pos <= x.0,
        pos <= r.1,
{
    let n = s.len();
    let p0 = skip_trivia_exec(s, pos);
    if !(p0 < n && s[p0] == 40u8) {
        return (None, p0);
    }
    let start = p0;
    let mut p = p0;
    let mut paren: usize = 0;
    let mut angle: usize = 0;
    while p < n
        invariant
            start <= p <= n + 2,
            n == s@.len(),
            n < usize::MAX - 4,
            start < n,
            s@[start as int] == 40u8,
            start == skip_trivia(s@, pos as int),
            pos <= start,
            p > start ==> paren >= 1,
            p == start ==> paren == 0,
            paren <= p,
            angle <= p,
            parens_scan(s@, p as int, start as int, paren as int, angle as int) == parens_scan(s@, start as int, start as int, 0, 0),
        decreases n + 2 - p,
    {
        let c = s[p];
        if c == 34u8 {
            let q = string_end_exec(s, p + 1);
            p = q + 1;
        } else if c == 39u8 {
            let q = char_lit_end_exec(s, p);
            p = q;
        } else if c == 47u8 && p + 1 < n && s[p + 1] == 47u8 {
            let q = line_end_exec(s, p + 1);
            assert(line_end(s@, p as int) == line_end(s@, p + 1));
            p = q;
        } else if c == 40u8 {
            paren += 1;
            p += 1;
        } else if c == 41u8 {
            if paren - 1 == 0 {
                return (Some((start, p + 1)), p + 1);
            }
            paren -= 1;
            p += 1;
        } else if c == 60u8 {
            angle += 1;
            p += 1;
        } else if c == 62u8 && angle > 0 {
            angle -= 1;
            p += 1;
        } else if (c == 123u8 || c == 59u8) && paren == 0 {
            return (None, p);
        } else {
            p += 1;
        }
    }
    (None, p)
}

fn ret_exec(s: &[u8], pos: usize) -> (r: (Option<(usize, usize)>, usize))
    requires
        pos <= s@.len(),
        s@.len() < usize::MAX - 4,
    ensures
        (match r.0 { Some(x) => Some((x.0 as int, x.1 as int)), None => None::<(int, int)> }, r.1 as int) == read_return(s@, pos as int),
        r.1 <= s@.len() + 2,
        r.0 matches Some(x) ==> x.0 <= s@.len() && x.0 <= x.1 && x.1 == r.1,
        r.0 is None ==> pos <= r.1 <= s@.len(),
        pos <= r.1,
{
    let n = s.len();
    let p0 = skip_trivia_exec(s, pos);
    if !(p0 < n && n - p0 >= 2 && s[p0] == 45u8 && s[p0 + 1] == 62u8) {
        return (None, p0);
    }
    let start = p0 + 2;
    let mut p = start;
    let mut angle: usize = 0;
    while p < n
        invariant
            start <= p <= n + 2,
            n == s@.len(),
            n < usize::MAX - 4,
            angle <= p,
            ret_scan(s@, p as int, angle as int) == ret_scan(s@, start as int, 0),
        ensures
            start <= p <= n + 2,
            p == ret_scan(s@, start as int, 0),
        decreases n + 2 - p,
    {
        let c = s[p];
        if c == 34u8 {
            let q = string_end_exec(s, p + 1);
            p = q + 1;
        } else if c == 47u8 && p + 1 < n && s[p + 1] == 47u8 {
            break;
        } else if c == 60u8 {
            angle += 1;
            p += 1;
        } else if c == 62u8 && angle > 0 {
            angle -= 1;
            p += 1;
        } else if (c == 123u8 || c == 59u8) && angle == 0 {
            break;
        } else {
            p += 1;
        }
    }
    (Some((start, p)), p)
}

fn lit_end_exec(s: &[char], i: usize, q: char) -> (r: usize)
    requires
        i <= s@.len() + 1,
        s@.len() < usize::MAX - 4,
    ensures
        r == lit_end(s@, i as int, q),
        i <= r <= s@.len() + 1,
{
    let mut k = i;
    while k < s.len() && s[k] != q
        invariant
            i <= k <= s@.len() + 1,
            s@.len() < usize::MAX - 4,
            lit_end(s@, k as int, q) == lit_end(s@, i as int, q),
        decreases s@.len() + 1 - k,
    {
        if s[k] == '\\' {
            k += 2;
        } else {
            k += 1;
        }
    }
    k
}

/// Splits a parameter list at its top-level commas (see `arg_pieces`).
fn arg_pieces_exec(s: &[char]) -> (parts: Vec<String>)
    requires
        s@.len() < usize::MAX - 4,
    ensures
        texts(parts@) == arg_pieces(s@, 0, 0, 0, 0, 0),
{
    let n = s.len();
    let mut parts: Vec<String> = Vec::new();
    let mut last: usize = 0;
    let mut paren: i128 = 0;
    let mut bracket: i128 = 0;
    let mut angle: i128 = 0;
    let mut i: usize = 0;
    while i < n
        invariant
            n == s@.len(),
            n < usize::MAX - 4,
            last <= n,
            last <= i <= n + 2,
            -(i as int) <= paren <= i,
            -(i as int) <= bracket <= i,
            0 <= angle <= i,
            texts(parts@) + arg_pieces(s@, i as int, last as int, paren as int, bracket as int, angle as int)
                == arg_pieces(s@, 0, 0, 0, 0, 0),
        decreases n + 2 - i,
    {
        let c = s[i];
        if c == '"' || c == '\'' {
            let q = lit_end_exec(s, i + 1, c) + 1;
            i = q;
        } else if c == '(' {
            paren += 1;
            i += 1;
        } else if c == ')' {
            paren -= 1;
            i += 1;
        } else if c == '[' {
            bracket += 1;
            i += 1;
        } else if c == ']' {
            bracket -= 1;
            i += 1;
        } else if c == '<' {
            angle += 1;
            i += 1;
        } else if c == '>' && angle > 0 {
            angle -= 1;
            i += 1;
        } else if c == ',' && paren == 0 && bracket == 0 && angle == 0 {
            let ghost before = texts(parts@);
            let ghost later = arg_pieces(s@, i + 1, i + 1, 0, 0, 0);
            parts.push(string_of(s, last, i));
            assert(texts(parts@) =~= before.push(s@.subrange(last as int, i as int)));
            assert(before.push(s@.subrange(last as int, i as int)) + later
                =~= before + (seq![s@.subrange(last as int, i as int)] + later));
            last = i + 1;
            i += 1;
        } else {
            i += 1;
        }
    }
    let ghost before = texts(parts@);
    parts.push(string_of(s, last, n));
    assert(texts(parts@) =~= before + seq![s@.subrange(last as int, n as int)]);
    parts
}

/// Reads the receiver and parameters of parameter pieces (see `sig_params`).
fn sig_params_exec(parts: &Vec<String>) -> (r: (Option<SelfKind>, Vec<ParamSpec>))
    ensures
        (r.0, params_view(r.1@)) == sig_params(texts(parts@), 0, None, Seq::empty()),
{
    proof {
        reveal_strlit("mut ");
        reveal_strlit("_");
    }
    let ghost pv = texts(parts@);
    let mut sk: Option<SelfKind> = None;
    let mut ps: Vec<ParamSpec> = Vec::new();
    let mut i: usize = 0;
    assert(params_view(ps@) =~= Seq::<ParamView>::empty());
    while i < parts.len()
        invariant
            i <= parts@.len(),
            pv == texts(parts@),
            "mut "@ == seq!['m', 'u', 't', ' '],
            "_"@ == seq!['_'],
            sig_params(pv, i as int, sk, params_view(ps@)) == sig_params(pv, 0, None, Seq::empty()),
        decreases parts@.len() - i,
    {
        assert(pv[i as int] == parts@[i as int]@);
        let pc = chars_of(parts[i].as_str());
        let (a, b) = trim_bounds(pc.as_slice(), 0, pc.len());
        assert(pc@.subrange(0, pc@.len() as int) =~= pc@);
        let p = sub_vec(pc.as_slice(), a, b);
        if p.len() == 0 {
            i += 1;
            continue;
        }
        let pt = string_of(p.as_slice(), 0, p.len());
        assert(p@.subrange(0, p@.len() as int) =~= p@);
        let k = SelfKind::parse(pt.as_str());
        if k.is_some() {
            sk = k;
            i += 1;
            continue;
        }
        let m: usize = if p.len() >= 4 && p[0] == 'm' && p[1] == 'u' && p[2] == 't' && p[3] == ' ' { 4 } else { 0 };
        proof {
            if p@.len() >= 4 {
                if has_prefix(p@, "mut "@) {
                    assert(p@.subrange(0, 4)[0] == p@[0] && p@.subrange(0, 4)[1] == p@[1]);
                    assert(p@.subrange(0, 4)[2] == p@[2] && p@.subrange(0, 4)[3] == p@[3]);
                } else if m == 4 {
                    assert(p@.subrange(0, 4) =~= "mut "@);
                }
            }
            if m == 0 {
                assert(p@.subrange(0, p@.len() as int) =~= p@);
            }
        }
        let (qa, qb) = trim_bounds(p.as_slice(), m, p.len());
        let q = sub_vec(p.as_slice(), qa, qb);
        let colon = index_of_char(q.as_slice(), ':', 0);
        proof { lemma_index_of(q@, ':', 0); }
        if colon < q.len() {
            let (na, nb) = trim_bounds(q.as_slice(), 0, colon);
            if nb > na {
                let (ta, tb) = trim_bounds(q.as_slice(), colon + 1, q.len());
                let ghost before = params_view(ps@);
                ps.push(ParamSpec { name: string_of(q.as_slice(), na, nb), param_type: string_of(q.as_slice(), ta, tb) });
                assert(params_view(ps@) =~= before.push((trim_ws(q@.subrange(0, colon as int)), trim_ws(q@.subrange(colon + 1, q@.len() as int)))));
            }
        } else if q.len() == 1 && q[0] == '_' {
            let ghost before = params_view(ps@);
            ps.push(ParamSpec { name: owned("_"), param_type: owned("()") });
            assert(q@ =~= "_"@);
            assert(params_view(ps@) =~= before.push(("_"@, "()"@)));
        } else {
            assert(q@ != "_"@) by {
                if q@ == "_"@ {
                    assert(q@.len() == 1 && q@[0] == '_');
                }
            }
        }
        i += 1;
    }
    (sk, ps)
}

fn keyword_at_exec(s: &[u8], pos: usize, kw: &[u8]) -> (r: bool)
    requires
        s@.len() < usize::MAX - 8,
        kw@.len() <= 4,
    ensures
        r == keyword_at(s@, pos as int, kw@),
{
    let n = s.len();
    let k = kw.len();
    if pos > n || n - pos < k {
        return false;
    }
    let mut j: usize = 0;
    while j < k
        invariant
            pos + k <= n == s@.len(),
            k == kw@.len(),
            j <= k,
            forall|t: int| 0 <= t < j ==> s@[pos + t] == kw@[t],
        decreases k - j,
    {
        if s[pos + j] != kw[j] {
            assert(s@.subrange(pos as int, pos + k)[j as int] != kw@[j as int]);
            return false;
        }
        j += 1;
    }
    assert(s@.subrange(pos as int, pos + k) =~= kw@);
    if pos > 0 && is_ident_byte(s[pos - 1]) {
        return false;
    }
    pos + k < n && !is_ident_byte(s[pos + k])
}

/// The words of `v` (`str::split_whitespace`).
pub fn split_words(v: &[char]) -> (r: Vec<String>)
    ensures
        texts(r@) == words_from(v@, 0),
{
    let n = v.len();
    let mut r: Vec<String> = Vec::new();
    let mut i: usize = 0;
    while i < n
        invariant
            n == v@.len(),
            i <= n,
            texts(r@) + words_from(v@, i as int) == words_from(v@, 0),
        decreases n - i,
    {
        if is_whitespace(v[i]) {
            i += 1;
        } else {
            let mut e = i;
            while e < n && !is_whitespace(v[e])
                invariant
                    n == v@.len(),
                    i <= e <= n,
                    word_end(v@, e as int) == word_end(v@, i as int),
                decreases n - e,
            {
                e += 1;
            }
            let ghost before = texts(r@);
            r.push(string_of(v, i, e));
            assert(texts(r@) =~= before.push(v@.subrange(i as int, e as int)));
            assert(before.push(v@.subrange(i as int, e as int)) + words_from(v@, e as int)
                =~= before + (seq![v@.subrange(i as int, e as int)] + words_from(v@, e as int)));
            i = e;
        }
    }
    assert(texts(r@) + Seq::<Seq<char>>::empty() =~= texts(r@));
    r
}

/// The characters of `v` outside angle brackets (see `strip_generics`).
fn strip_generics_exec(v: &[char]) -> (r: Vec<char>)
    ensures
        r@ == strip_generics(v@, 0, 0),
{
    let n = v.len();
    let mut r: Vec<char> = Vec::new();
    let mut angle: i128 = 0;
    let mut i: usize = 0;
    while i < n
        invariant
            n == v@.len(),
            i <= n,
            -(i as int) <= angle <= i,
            r@ + strip_generics(v@, i as int, angle as int) == strip_generics(v@, 0, 0),
        decreases n - i,
    {
        let c = v[i];
        if c == '<' {
            angle += 1;
        } else if c == '>' {
            angle -= 1;
        } else if angle <= 0 {
            let ghost before = r@;
            r.push(c);
            assert(before + (seq![c] + strip_generics(v@, i + 1, angle as int)) =~= r@ + strip_generics(v@, i + 1, angle as int));
        }
        i += 1;
    }
    assert(r@ + Seq::<char>::empty() =~= r@);
    r
}

/// The text of `t` after its last `::` (see `after_path_seps`).
fn after_path_seps_exec(t: &[char]) -> (r: String)
    ensures
        r@ == after_path_seps(t@, 0),
{
    proof { reveal_strlit("::"); }
    let sep = chars_of("::");
    let n = t.len();
    let mut a: usize = 0;
    loop
        invariant
            n == t@.len(),
            a <= n,
            sep@ == "::"@,
            "::"@.len() == 2,
            after_path_seps(t@, a as int) == after_path_seps(t@, 0),
        decreases n - a,
    {
        match find_from(t, sep.as_slice(), a) {
            Some(k) => {
                proof { lemma_find_seq(t@, "::"@, a as int); }
                a = k + 2;
            },
            None => {
                return string_of(t, a, n);
            },
        }
    }
}

/// The implementing type named by header tokens (see `impl_candidate`).
fn impl_candidate_exec(toks: &Vec<String>) -> (r: Option<String>)
    ensures
        ot(r) == impl_candidate(texts(toks@), None),
{
    proof { reveal_strlit("for"); }
    let ghost tv = texts(toks@);
    let mut last: Option<String> = None;
    let mut i: usize = 0;
    assert(tv.subrange(0, tv.len() as int) =~= tv);
    while i < toks.len()
        invariant
            i <= toks@.len(),
            tv == texts(toks@),
            impl_candidate(tv.subrange(i as int, tv.len() as int), ot(last)) == impl_candidate(tv, None),
        decreases toks@.len() - i,
    {
        let ghost rest = tv.subrange(i as int, tv.len() as int);
        assert(rest[0] == toks@[i as int]@);
        assert(rest.drop_first() =~= tv.subrange(i + 1, tv.len() as int));
        let v = chars_of(toks[i].as_str());
        if range_eq_str(v.as_slice(), 0, v.len(), "for") {
            assert(v@.subrange(0, v@.len() as int) =~= v@);
            last = None;
        } else {
            assert(v@.subrange(0, v@.len() as int) =~= v@);
            if v.len() > 0 && (is_alphabetic(v[0]) || v[0] == '_') {
                last = Some(after_path_seps_exec(v.as_slice()));
            }
        }
        i += 1;
    }
    assert(tv.subrange(i as int, tv.len() as int) =~= Seq::<Seq<char>>::empty());
    last
}

/// The type of the `impl` block whose keyword is at `kw_pos`.
fn impl_owner_exec(s: &[u8], kw_pos: usize) -> (r: Option<String>)
    requires
        kw_pos + 4 <= s@.len(),
        s@.len() < usize::MAX - 8,
    ensures
        ot(r) == impl_owner(s@, kw_pos as int),
{
    let rest_s = lossy_text(vstd::slice::slice_subrange(s, kw_pos + 4, s.len()));
    let rest = chars_of(rest_s.as_str());
    let end = index_of_char(rest.as_slice(), '{', 0);
    proof { lemma_index_of(rest@, '{', 0); }
    if end >= rest.len() {
        return None;
    }
    let head = sub_vec(rest.as_slice(), 0, end);
    let cleaned = strip_generics_exec(head.as_slice());
    let toks = split_words(cleaned.as_slice());
    match impl_candidate_exec(&toks) {
        Some(n) => if n.as_str().unicode_len() > 0 { Some(n) } else { None },
        None => None,
    }
}

/// The source text of a signature with whitespace runs squeezed.
fn raw_text_exec(s: &[u8], from: usize, to: usize) -> (r: String)
    requires
        from <= to <= s@.len(),
    ensures
        r@ == raw_text(s@, from as int, to as int),
{
    let t = lossy_text(vstd::slice::slice_subrange(s, from, to));
    let v = chars_of(t.as_str());
    let ws = split_words(v.as_slice());
    let mut out = String::new();
    push_joined(&mut out, &ws, " ");
    proof { reveal_strlit(" "); }
    out
}

/// Reads the signature after `fn` at `pos` (see `fn_after_name`).
fn fn_after_name_exec(s: &[u8], pos: usize) -> (r: (bool, Option<(FnSignature, usize)>))
    requires
        pos <= s@.len(),
        s@.len() < usize::MAX - 8,
    ensures
        r.0 == fn_after_name(s@, pos as int).0,
        match r.1 {
            Some(x) => fn_after_name(s@, pos as int).1 == Some((sig_view(x.0), x.1 as int)) && pos < x.1 <= s@.len(),
            None => fn_after_name(s@, pos as int).1 is None,
        },
{
    let p1 = skip_trivia_exec(s, pos);
    let e1 = ident_end_exec(s, p1);
    if e1 == p1 {
        return (false, None);
    }
    let (rp0, rp1) = parens_exec(s, e1);
    match rp0 {
        None => (false, None),
        Some((a, b)) => {
            let inner_s = lossy_text(vstd::slice::slice_subrange(s, a + 1, b - 1));
            let inner = chars_of(inner_s.as_str());
            let pieces = arg_pieces_exec(inner.as_slice());
            let (sk, ps) = sig_params_exec(&pieces);
            let name = lossy_text(vstd::slice::slice_subrange(s, p1, e1));
            let (rt0, rt1) = ret_exec(s, rp1);
            match rt0 {
                Some((t0, t1)) => {
                    if t1 > s.len() {
                        return (true, None);
                    }
                    let rt = lossy_text(vstd::slice::slice_subrange(s, t0, t1));
                    let rv = chars_of(rt.as_str());
                    let (ta, tb) = trim_bounds(rv.as_slice(), 0, rv.len());
                    assert(rv@.subrange(0, rv@.len() as int) =~= rv@);
                    let ret = if tb > ta { Some(string_of(rv.as_slice(), ta, tb)) } else { None };
                    (false, Some((FnSignature { name, self_kind: sk, params: ps, return_type: ret }, rt1)))
                },
                None => (false, Some((FnSignature { name, self_kind: sk, params: ps, return_type: None }, rt1))),
            }
        },
    }
}

/// A signature found in source text, with the type whose `impl` block
/// holds it and its text as written.
#[derive(Debug, Clone)]
pub struct ScopedSig {
    pub owner: Option<String>,
    pub sig: FnSignature,
    /// The signature's source text, whitespace squeezed.
    pub raw: String,
}

/// The view of a scoped signature.
pub open spec fn scoped_view(g: ScopedSig) -> ScopedView {
    (ot(g.owner), sig_view(g.sig), g.raw@)
}

/// The views of scoped signatures.
pub open spec fn scoped_views(v: Seq<ScopedSig>) -> Seq<ScopedView> {
    v.map_values(|g: ScopedSig| scoped_view(g))
}

/// The views of optional owners.
pub open spec fn owners_view(v: Seq<Option<String>>) -> Seq<Option<Seq<char>>> {
    v.map_values(|o: Option<String>| ot(o))
}

/// The lookup key of a signature: `Owner::name`, or the bare name.
pub open spec fn sig_key(owner: Option<Seq<char>>, name: Seq<char>) -> Seq<char> {
    match owner {
        Some(o) => o + "::"@ + name,
        None => name,
    }
}

impl ScopedSig {
    /// The key under which the signature is looked up (see `sig_key`).
    pub fn key(&self) -> (k: String)
        ensures
            k@ == sig_key(ot(self.owner), self.sig.name@),
    {
        match &self.owner {
            Some(o) => {
                let mut k = o.clone();
                push_str(&mut k, "::");
                push_str(&mut k, self.sig.name.as_str());
                k
            },
            None => self.sig.name.clone(),
        }
    }
}

fn clone_owner(o: &Option<String>) -> (r: Option<String>)
    ensures
        ot(r) == ot(*o),
{
    match o {
        Some(x) => Some(x.clone()),
        None => None,
    }
}

/// Scans source bytes for signatures (see `scoped_sigs`); `None` when a
/// return type runs past the end.
fn scan_scoped_sigs(s: &[u8]) -> (r: Option<Vec<ScopedSig>>)
    requires
        s@.len() < usize::MAX - 8,
    ensures
        match r {
            Some(v) => scoped_sigs(s@) == Some(scoped_views(v@)),
            None => scoped_sigs(s@) is None,
        },
{
    let n = s.len();
    let mut out: Vec<ScopedSig> = Vec::new();
    let mut stack: Vec<Option<String>> = Vec::new();
    let mut owner: Option<String> = None;
    let mut pending: Option<String> = None;
    let mut pos: usize = 0;
    let impl_kw: [u8; 4] = [105, 109, 112, 108];
    let fn_kw: [u8; 2] = [102, 110];
    assert(impl_kw@ =~= impl_bytes());
    assert(fn_kw@ =~= fn_bytes());
    assert(owners_view(stack@) =~= Seq::<Option<Seq<char>>>::empty());
    assert(scoped_views(out@) =~= Seq::<ScopedView>::empty());
    while pos < n
        invariant
            n == s@.len(),
            n < usize::MAX - 8,
            pos <= n + 2,
            impl_kw@ == impl_bytes(),
            fn_kw@ == fn_bytes(),
            scan_sigs(s@, pos as int, SigScan {
                stack: owners_view(stack@),
                owner: ot(owner),
                pending: ot(pending),
                out: scoped_views(out@),
            }) == scoped_sigs(s@),
        decreases n + 2 - pos,
    {
        let c = s[pos];
        if c == 39u8 {
            pos = char_lit_end_exec(s, pos);
        } else if c == 47u8 && pos + 1 < n && s[pos + 1] == 42u8 {
            let q = skip_trivia_exec(s, pos);
            if q <= pos {
                return Some(out);
            }
            pos = q;
        } else if c == 123u8 {
            let ghost before = owners_view(stack@);
            let o = owner.take();
            stack.push(o);
            assert(owners_view(stack@) =~= before.push(ot(o)));
            owner = pending.take();
            pos += 1;
        } else if c == 125u8 {
            let ghost before = owners_view(stack@);
            let top = stack.pop();
            proof {
                if before.len() > 0 {
                    assert(owners_view(stack@) =~= before.drop_last());
                } else {
                    assert(owners_view(stack@) =~= before);
                }
            }
            owner = match top {
                Some(o) => o,
                None => None,
            };
            pos += 1;
        } else {
            let p1 = if c == 34u8 {
                string_end_exec(s, pos + 1)
            } else if c == 47u8 && pos + 1 < n && s[pos + 1] == 47u8 {
                line_end_exec(s, pos)
            } else {
                pos
            };
            if keyword_at_exec(s, p1, impl_kw.as_slice()) {
                let o = impl_owner_exec(s, p1);
                if o.is_some() {
                    pending = o;
                }
            }
            if keyword_at_exec(s, p1, fn_kw.as_slice()) {
                let (over, found) = fn_after_name_exec(s, p1 + 2);
                if over {
                    return None;
                }
                match found {
                    Some((sig, e)) => {
                        let raw = raw_text_exec(s, p1, e);
                        let ghost before = scoped_views(out@);
                        let g = ScopedSig { owner: clone_owner(&owner), sig, raw };
                        out.push(g);
                        assert(scoped_views(out@) =~= before.push(scoped_view(g)));
                        pos = e;
                    },
                    None => {
                        pos = p1 + 1;
                    },
                }
            } else {
                pos = p1 + 1;
            }
        }
    }
    Some(out)
}

/// Every `fn` signature in `code`, each with the type of the `impl` block
/// that holds it (`None` outside any), in order of appearance.
pub fn parse_scoped_signatures(code: &str) -> (r: Vec<ScopedSig>)
    requires
        code.spec_bytes().len() < usize::MAX - 8,
        scoped_sigs(code.spec_bytes()) is Some,
    ensures
        scoped_sigs(code.spec_bytes()) == Some(scoped_views(r@)),
{
    match scan_scoped_sigs(code.as_bytes()) {
        Some(v) => v,
        None => Vec::new(),
    }
}

/// `parse_scoped_signatures` where the signatures can be read; `None` where
/// a return type runs past the end of the code.
pub fn try_parse_scoped_signatures(code: &str) -> (r: Option<Vec<ScopedSig>>)
    requires
        code.spec_bytes().len() < usize::MAX - 8,
    ensures
        match r {
            Some(v) => scoped_sigs(code.spec_bytes()) == Some(scoped_views(v@)),
            None => scoped_sigs(code.spec_bytes()) is None,
        },
{
    scan_scoped_sigs(code.as_bytes())
}

/// A signature that exists in the repository when the turn starts, with
/// its source text.
#[derive(Debug, Clone)]
pub struct BaselineEntry {
    pub sig: FnSignature,
    pub raw: String,
}

/// A baseline entry as signature and source text.
pub type EntryView = (SigView, Seq<char>);

/// The view of a baseline entry.
pub open spec fn entry_view(e: BaselineEntry) -> EntryView {
    (sig_view(e.sig), e.raw@)
}

/// The acceptance test file locked before implementation starts.
#[derive(Debug, Clone, PartialEq, Eq)]
pub struct AcceptanceOracle {
    /// Workspace-relative path of the test file.
    pub path: String,
    pub content: String,
}

/// The specification of a turn, compiled once from the task: the raw task
/// text, its contract, the baseline of existing signatures and the locked
/// acceptance oracle.
#[derive(Debug)]
pub struct TaskSpec {
    pub raw_task: String,
    pub contract: TaskContract,
    /// Existing signatures at turn start, keyed by `Owner::name` or `name`.
    pub baseline: Baseline,
    pub oracle: Option<AcceptanceOracle>,
    /// The package name from `Cargo.toml`.
    pub crate_name: Option<String>,
    /// The crate root's text, verbatim.
    pub lib_rs: Option<String>,
}

/// The views of required methods.
pub open spec fn methods_view(v: Seq<RequiredMethod>) -> Seq<MethodView> {
    v.map_values(|m: RequiredMethod| method_view(m))
}

/// A path with backslashes turned into slashes.
pub open spec fn slashed(p: Seq<char>) -> Seq<char> {
    replace_char(p, '\\', '/')
}

/// Two paths name the same file when one ends with the other, separators
/// normalized.
pub open spec fn paths_match(file: Seq<char>, target: Seq<char>) -> bool {
    has_suffix(slashed(file), slashed(target)) || has_suffix(slashed(target), slashed(file))
}

/// Whether `file` and `target` name the same file (see `paths_match`).
pub fn file_matches(file: &str, target: &str) -> (b: bool)
    ensures
        b == paths_match(file@, target@),
{
    let fv = chars_of(file);
    let tv = chars_of(target);
    let f = chars_of(replaced_range(fv.as_slice(), 0, fv.len(), '\\', '/').as_str());
    let t = chars_of(replaced_range(tv.as_slice(), 0, tv.len(), '\\', '/').as_str());
    assert(fv@.subrange(0, fv@.len() as int) =~= fv@);
    assert(tv@.subrange(0, tv@.len() as int) =~= tv@);
    ends_with(f.as_slice(), t.as_slice()) || ends_with(t.as_slice(), f.as_slice())
}

/// The signature a requirement asks for.
pub open spec fn required_view(m: MethodView) -> SigView {
    (m.2, match m.4 { Some(k) => self_kind_of(trim_ws(k)), None => None }, m.5, m.6)
}

fn clone_params(ps: &Vec<ParamSpec>) -> (r: Vec<ParamSpec>)
    ensures
        params_view(r@) == params_view(ps@),
{
    let mut r: Vec<ParamSpec> = Vec::new();
    let mut i: usize = 0;
    while i < ps.len()
        invariant
            i <= ps@.len(),
            params_view(r@) == params_view(ps@).subrange(0, i as int),
        decreases ps@.len() - i,
    {
        let ghost before = params_view(r@);
        r.push(ParamSpec { name: ps[i].name.clone(), param_type: ps[i].param_type.clone() });
        assert(params_view(r@) =~= before.push(param_view(ps@[i as int])));
        assert(params_view(r@) =~= params_view(ps@).subrange(0, i + 1));
        i += 1;
    }
    assert(params_view(ps@).subrange(0, i as int) =~= params_view(ps@));
    r
}

/// The signature a requirement asks for (see `required_view`).
pub fn required_signature(m: &RequiredMethod) -> (g: FnSignature)
    ensures
        sig_view(g) == required_view(method_view(*m)),
{
    let self_kind = match &m.self_kind {
        Some(k) => SelfKind::parse(k.as_str()),
        None => None,
    };
    FnSignature {
        name: m.fn_name.clone(),
        self_kind,
        params: clone_params(&m.params),
        return_type: match &m.return_type {
            Some(t) => Some(t.clone()),
            None => None,
        },
    }
}

/// Whether a requirement applies to `file`: it names no file, or the same.
pub open spec fn applies_to(m: MethodView, file: Seq<char>) -> bool {
    match m.0 {
        Some(t) => paths_match(file, t),
        None => true,
    }
}

/// The message for a proposed signature that breaks a requirement.
pub open spec fn contract_violation(file: Seq<char>, req: SigView, prop: SigView) -> Seq<char> {
    "CONTRACT VIOLATION in `"@ + file + "`\nRequired : "@ + render_sig(req) + "\nProposed : "@ + render_sig(prop)
        + "\nDifferences:\n"@ + join(diff_lines(req, prop), "\n"@)
}

/// Rule 1 for one requirement: each proposed signature of its name must
/// match it, except (for a requirement without a file) one whose baseline
/// entry itself disagrees with the requirement.
pub open spec fn rule1_for(props: Seq<ScopedView>, base: Map<Seq<char>, EntryView>, m: MethodView, file: Seq<char>) -> Seq<Seq<char>>
    decreases props.len(),
{
    if props.len() == 0 {
        Seq::empty()
    } else {
        let rest = rule1_for(props.drop_last(), base, m, file);
        let p = props.last();
        let req = required_view(m);
        let key = sig_key(p.0, p.1.0);
        let exempt = m.0 is None && base.contains_key(key) && !sig_matches(base[key].0, req);
        if p.1.0 == m.2 && !exempt && !sig_matches(p.1, req) {
            rest.push(contract_violation(file, req, p.1))
        } else {
            rest
        }
    }
}

/// Rule 1 (required API exactness) over the requirements in order.
pub open spec fn rule1(props: Seq<ScopedView>, base: Map<Seq<char>, EntryView>, ms: Seq<MethodView>, file: Seq<char>) -> Seq<Seq<char>>
    decreases ms.len(),
{
    if ms.len() == 0 {
        Seq::empty()
    } else {
        rule1(props, base, ms.drop_last(), file)
            + if applies_to(ms.last(), file) { rule1_for(props, base, ms.last(), file) } else { Seq::empty() }
    }
}

/// Whether some requirement that applies to `file` redefines `p`'s name
/// with exactly `p`'s shape.
pub open spec fn redefined(ms: Seq<MethodView>, p: SigView, file: Seq<char>) -> bool {
    exists|i: int| 0 <= i < ms.len() && (#[trigger] ms[i]).2 == p.0 && applies_to(ms[i], file) && sig_matches(required_view(ms[i]), p)
}

/// The first requirement from `i` on with the name `name`.
pub open spec fn first_named(ms: Seq<MethodView>, name: Seq<char>, i: int) -> Option<MethodView>
    decreases ms.len() - i,
{
    if i < 0 || i >= ms.len() {
        None
    } else if ms[i].2 == name {
        Some(ms[i])
    } else {
        first_named(ms, name, i + 1)
    }
}

/// Where the contract places the first requirement of a name.
pub open spec fn placement_hint(ms: Seq<MethodView>, name: Seq<char>) -> Seq<char> {
    match first_named(ms, name, 0) {
        Some(m) => "\nRequired placement per contract: `"@ + (match m.1 { Some(o) => o + "::"@ + m.3, None => m.3 }) + "`"@
            + (match m.0 { Some(f) => " (in `"@ + f + "`)"@, None => Seq::empty() }),
        None => Seq::empty(),
    }
}

/// The message for a patch that changes an existing signature.
pub open spec fn drift_violation(file: Seq<char>, existing: Seq<char>, proposed: Seq<char>, hint: Seq<char>) -> Seq<char> {
    "API DRIFT in `"@ + file + "`\nExisting : "@ + trim_ws(existing) + "\nProposed : "@ + trim_ws(proposed)
        + "\nThe patch silently changes an existing public API.\nPreserve existing signatures unless the task explicitly redefines this exact one."@
        + hint
}

/// Rule 2 (baseline preservation): a proposed signature whose key is in the
/// baseline keeps its text or shape, unless a requirement redefines it
/// with exactly that shape.
pub open spec fn rule2(props: Seq<ScopedView>, base: Map<Seq<char>, EntryView>, ms: Seq<MethodView>, file: Seq<char>) -> Seq<Seq<char>>
    decreases props.len(),
{
    if props.len() == 0 {
        Seq::empty()
    } else {
        let rest = rule2(props.drop_last(), base, ms, file);
        let p = props.last();
        let key = sig_key(p.0, p.1.0);
        if base.contains_key(key) && !(trim_ws(base[key].1) == trim_ws(p.2) || sig_matches(base[key].0, p.1))
            && !redefined(ms, p.1, file) {
            rest.push(drift_violation(file, base[key].1, p.2, placement_hint(ms, p.1.0)))
        } else {
            rest
        }
    }
}

/// Every violation of a patch: rule 1's, then rule 2's.
pub open spec fn patch_violations(props: Seq<ScopedView>, base: Map<Seq<char>, EntryView>, ms: Seq<MethodView>, file: Seq<char>) -> Seq<Seq<char>> {
    rule1(props, base, ms, file) + rule2(props, base, ms, file)
}

/// Each violation as a bullet paragraph.
pub open spec fn violation_bullets(vs: Seq<Seq<char>>) -> Seq<char>
    decreases vs.len(),
{
    if vs.len() == 0 { Seq::empty() } else { violation_bullets(vs.drop_last()) + "\n• "@ + vs.last() + "\n"@ }
}

/// The rejection of a patch with its violations.
pub open spec fn gate_error(vs: Seq<Seq<char>>) -> Seq<char> {
    "Specification-Locked gate rejected this patch before any filesystem write:\n"@ + violation_bullets(vs)
        + "\nRule: implement EXACTLY the required API from the task specification.\nDo not reinterpret, simplify or relocate required signatures.\nReturn the COMPLETE corrected file content inside a single code block."@
}

/// The signatures of a patch (none when the scan cannot complete).
pub open spec fn patch_sigs(code: Seq<u8>) -> Seq<ScopedView> {
    match scoped_sigs(code) {
        Some(v) => v,
        None => Seq::empty(),
    }
}

/// The prompt block of a locked specification.
pub open spec fn spec_prompt(contract_block: Seq<char>, oracle: Option<Seq<char>>) -> Seq<char> {
    "### Specification Lock (immutable for this turn)\n"@
        + "This specification was compiled once from the ORIGINAL task and cannot change during the turn.\n"@
        + (if contract_block.len() > 0 {
            "\n"@ + contract_block
        } else {
            "\nNo explicit signatures were extracted; follow the task text literally.\n"@
        })
        + (match oracle {
            Some(path) => "\n"@ + "Acceptance Oracle: `"@ + path
                + "` was written before implementation and is LOCKED.\nYou MUST NOT edit, delete, move or weaken this file.\nIf its tests fail, change your implementation to satisfy them.\n"@,
            None => Seq::empty(),
        })
}

/// The repair directive while an oracle is locked.
pub open spec fn repair_directive(oracle: Option<Seq<char>>) -> Seq<char> {
    match oracle {
        None => Seq::empty(),
        Some(path) => "\nACCEPTANCE ORACLE ACTIVE: `"@ + path
            + "` is locked and immutable.\nDiagnostics pointing into that file mean your implementation's API does not match the required specification — fix the source files, never the oracle."@,
    }
}

/// The path of an optional oracle.
pub open spec fn oracle_path(o: Option<AcceptanceOracle>) -> Option<Seq<char>> {
    match o {
        Some(x) => Some(x.path@),
        None => None,
    }
}

fn push_contract_violation(vs: &mut Vec<String>, file: &str, req: &FnSignature, prop: &FnSignature)
    ensures
        texts(final(vs)@) == texts(old(vs)@).push(contract_violation(file@, sig_view(*req), sig_view(*prop))),
{
    let mut v = owned("CONTRACT VIOLATION in `");
    push_str(&mut v, file);
    push_str(&mut v, "`\nRequired : ");
    push_str(&mut v, req.render().as_str());
    push_str(&mut v, "\nProposed : ");
    push_str(&mut v, prop.render().as_str());
    push_str(&mut v, "\nDifferences:\n");
    push_str(&mut v, describe_diff(req, prop).as_str());
    push_line(vs, v);
}

impl TaskSpec {
    /// A specification from the task alone: its contract, an empty
    /// baseline and no oracle.
    pub fn from_task(task: &str) -> (r: TaskSpec)
        ensures
            r.raw_task@ == task@,
            (methods_view(r.contract.methods@), texts(r.contract.type_constraints@), texts(r.contract.behavior_notes@))
                == contract_of(task@),
            r.baseline@ == Map::<Seq<char>, EntryView>::empty(),
            r.oracle is None,
            r.crate_name is None,
            r.lib_rs is None,
    {
        TaskSpec {
            raw_task: owned(task),
            contract: TaskContract::extract(task),
            baseline: Baseline::new(),
            oracle: None,
            crate_name: None,
            lib_rs: None,
        }
    }

    /// Whether some requirement applying to `file` redefines `p` exactly.
    fn redefines(&self, p: &FnSignature, file: &str) -> (b: bool)
        ensures
            b == redefined(methods_view(self.contract.methods@), sig_view(*p), file@),
    {
        let ghost ms = methods_view(self.contract.methods@);
        let mut i: usize = 0;
        while i < self.contract.methods.len()
            invariant
                i <= self.contract.methods@.len(),
                ms == methods_view(self.contract.methods@),
                forall|j: int| 0 <= j < i ==> !((#[trigger] ms[j]).2 == sig_view(*p).0 && applies_to(ms[j], file@)
                    && sig_matches(required_view(ms[j]), sig_view(*p))),
            decreases self.contract.methods@.len() - i,
        {
            let m = &self.contract.methods[i];
            assert(ms[i as int] == method_view(*m));
            if m.fn_name == p.name {
                let applies = match &m.file {
                    Some(f) => file_matches(file, f.as_str()),
                    None => true,
                };
                if applies && required_signature(m).matches_required(p) {
                    return true;
                }
            }
            i += 1;
        }
        false
    }

    /// Where the contract places the first requirement named `name`.
    fn placement(&self, name: &String) -> (h: String)
        ensures
            h@ == placement_hint(methods_view(self.contract.methods@), name@),
    {
        let ghost ms = methods_view(self.contract.methods@);
        let mut i: usize = 0;
        while i < self.contract.methods.len()
            invariant
                i <= self.contract.methods@.len(),
                ms == methods_view(self.contract.methods@),
                first_named(ms, name@, i as int) == first_named(ms, name@, 0),
            decreases self.contract.methods@.len() - i,
        {
            let m = &self.contract.methods[i];
            assert(ms[i as int] == method_view(*m));
            if m.fn_name == *name {
                let mut h = owned("\nRequired placement per contract: `");
                match &m.owner {
                    Some(o) => {
                        push_str(&mut h, o.as_str());
                        push_str(&mut h, "::");
                        push_str(&mut h, m.raw_signature.as_str());
                    },
                    None => push_str(&mut h, m.raw_signature.as_str()),
                }
                push_str(&mut h, "`");
                match &m.file {
                    Some(f) => {
                        push_str(&mut h, " (in `");
                        push_str(&mut h, f.as_str());
                        push_str(&mut h, "`)");
                    },
                    None => {},
                }
                return h;
            }
            i += 1;
        }
        String::new()
    }

    fn check_required(&self, props: &Vec<ScopedSig>, file: &str, vs: &mut Vec<String>)
        ensures
            texts(final(vs)@) == texts(old(vs)@) + rule1(scoped_views(props@), self.baseline@,
                methods_view(self.contract.methods@), file@),
    {
        let ghost pv = scoped_views(props@);
        let ghost ms = methods_view(self.contract.methods@);
        let ghost start = texts(vs@);
        let mut mi: usize = 0;
        assert(texts(vs@) =~= start + rule1(pv, self.baseline@, ms.subrange(0, 0), file@));
        while mi < self.contract.methods.len()
            invariant
                mi <= self.contract.methods@.len(),
                pv == scoped_views(props@),
                ms == methods_view(self.contract.methods@),
                texts(vs@) == start + rule1(pv, self.baseline@, ms.subrange(0, mi as int), file@),
            decreases self.contract.methods@.len() - mi,
        {
            let m = &self.contract.methods[mi];
            let ghost mv = ms[mi as int];
            assert(mv == method_view(*m));
            let ghost sub = ms.subrange(0, mi + 1);
            assert(sub.drop_last() =~= ms.subrange(0, mi as int));
            assert(sub.last() == mv);
            let applies = match &m.file {
                Some(t) => file_matches(file, t.as_str()),
                None => true,
            };
            let ghost mid = texts(vs@);
            if applies {
                let required = required_signature(m);
                let mut pi: usize = 0;
                assert(mid =~= mid + rule1_for(pv.subrange(0, 0), self.baseline@, mv, file@));
                while pi < props.len()
                    invariant
                        pi <= props@.len(),
                        pv == scoped_views(props@),
                        mv == method_view(*m),
                        sig_view(required) == required_view(mv),
                        texts(vs@) == mid + rule1_for(pv.subrange(0, pi as int), self.baseline@, mv, file@),
                    decreases props@.len() - pi,
                {
                    let p = &props[pi];
                    let ghost psub = pv.subrange(0, pi + 1);
                    assert(psub.drop_last() =~= pv.subrange(0, pi as int));
                    assert(psub.last() == scoped_view(*p));
                    let ghost before = texts(vs@);
                    if p.sig.name == m.fn_name {
                        let mut exempt = false;
                        if m.file.is_none() {
                            let key = p.key();
                            match self.baseline.get(key.as_str()) {
                                Some(b) => {
                                    if !b.sig.matches_required(&required) {
                                        exempt = true;
                                    }
                                },
                                None => {},
                            }
                        }
                        if !exempt && !p.sig.matches_required(&required) {
                            push_contract_violation(vs, file, &required, &p.sig);
                        }
                    }
                    assert(texts(vs@) =~= mid + rule1_for(psub, self.baseline@, mv, file@));
                    pi += 1;
                }
                assert(pv.subrange(0, props@.len() as int) =~= pv);
            }
            assert(texts(vs@) =~= start + rule1(pv, self.baseline@, sub, file@));
            mi += 1;
        }
        assert(ms.subrange(0, mi as int) =~= ms);
    }

    fn check_baseline(&self, props: &Vec<ScopedSig>, file: &str, vs: &mut Vec<String>)
        ensures
            texts(final(vs)@) == texts(old(vs)@) + rule2(scoped_views(props@), self.baseline@,
                methods_view(self.contract.methods@), file@),
    {
        let ghost pv = scoped_views(props@);
        let ghost ms = methods_view(self.contract.methods@);
        let ghost start = texts(vs@);
        let mut pi: usize = 0;
        assert(texts(vs@) =~= start + rule2(pv.subrange(0, 0), self.baseline@, ms, file@));
        while pi < props.len()
            invariant
                pi <= props@.len(),
                pv == scoped_views(props@),
                ms == methods_view(self.contract.methods@),
                texts(vs@) == start + rule2(pv.subrange(0, pi as int), self.baseline@, ms, file@),
            decreases props@.len() - pi,
        {
            let p = &props[pi];
            let ghost psub = pv.subrange(0, pi + 1);
            assert(psub.drop_last() =~= pv.subrange(0, pi as int));
            assert(psub.last() == scoped_view(*p));
            let key = p.key();
            match self.baseline.get(key.as_str()) {
                Some(b) => {
                    let same_text = trim_str(b.raw.as_str()) == trim_str(p.raw.as_str());
                    if !(same_text || b.sig.matches_required(&p.sig)) && !self.redefines(&p.sig, file) {
                        let hint = self.placement(&p.sig.name);
                        let mut v = owned("API DRIFT in `");
                        push_str(&mut v, file);
                        push_str(&mut v, "`\nExisting : ");
                        push_str(&mut v, trim_str(b.raw.as_str()).as_str());
                        push_str(&mut v, "\nProposed : ");
                        push_str(&mut v, trim_str(p.raw.as_str()).as_str());
                        push_str(&mut v, "\nThe patch silently changes an existing public API.\nPreserve existing signatures unless the task explicitly redefines this exact one.");
                        push_str(&mut v, hint.as_str());
                        push_line(vs, v);
                    }
                },
                None => {},
            }
            assert(texts(vs@) =~= start + rule2(psub, self.baseline@, ms, file@));
            pi += 1;
        }
        assert(pv.subrange(0, pi as int) =~= pv);
    }

    /// `check_patch` where the signatures of `code` can be read; `None`
    /// where a return type runs past the end of the code.
    pub fn try_check_patch(&self, code: &str, file: &str) -> (r: Option<Result<(), String>>)
        requires
            code.spec_bytes().len() < usize::MAX - 8,
        ensures
            r is None <==> scoped_sigs(code.spec_bytes()) is None,
            r matches Some(res) ==> match res {
                Ok(_) => patch_violations(patch_sigs(code.spec_bytes()), self.baseline@,
                    methods_view(self.contract.methods@), file@).len() == 0,
                Err(e) => patch_violations(patch_sigs(code.spec_bytes()), self.baseline@,
                    methods_view(self.contract.methods@), file@).len() > 0
                    && e@ == gate_error(patch_violations(patch_sigs(code.spec_bytes()), self.baseline@,
                    methods_view(self.contract.methods@), file@)),
            },
    {
        match try_parse_scoped_signatures(code) {
            Some(_) => Some(self.check_patch(code, file)),
            None => None,
        }
    }

    /// The deterministic gate for a proposed patch of `file`: rule 1
    /// (required API exactness) and rule 2 (baseline preservation). `Ok`
    /// exactly when there is no violation; else the rejection message.
    pub fn check_patch(&self, code: &str, file: &str) -> (r: Result<(), String>)
        requires
            code.spec_bytes().len() < usize::MAX - 8,
            scoped_sigs(code.spec_bytes()) is Some,
        ensures
            match r {
                Ok(_) => patch_violations(patch_sigs(code.spec_bytes()), self.baseline@,
                    methods_view(self.contract.methods@), file@).len() == 0,
                Err(e) => patch_violations(patch_sigs(code.spec_bytes()), self.baseline@,
                    methods_view(self.contract.methods@), file@).len() > 0
                    && e@ == gate_error(patch_violations(patch_sigs(code.spec_bytes()), self.baseline@,
                    methods_view(self.contract.methods@), file@)),
            },
    {
        let proposed = parse_scoped_signatures(code);
        let mut violations: Vec<String> = Vec::new();
        assert(texts(violations@) =~= Seq::<Seq<char>>::empty());
        self.check_required(&proposed, file, &mut violations);
        self.check_baseline(&proposed, file, &mut violations);
        let ghost vs = texts(violations@);
        assert(vs =~= patch_violations(patch_sigs(code.spec_bytes()), self.baseline@,
            methods_view(self.contract.methods@), file@));
        if violations.len() == 0 {
            return Ok(());
        }
        let mut err = owned("Specification-Locked gate rejected this patch before any filesystem write:\n");
        let ghost head = err@;
        let mut k: usize = 0;
        assert(vs.subrange(0, 0) =~= Seq::<Seq<char>>::empty());
        while k < violations.len()
            invariant
                k <= violations@.len(),
                vs == texts(violations@),
                err@ == head + violation_bullets(vs.subrange(0, k as int)),
            decreases violations@.len() - k,
        {
            push_str(&mut err, "\n• ");
            push_str(&mut err, violations[k].as_str());
            push_str(&mut err, "\n");
            let ghost sub = vs.subrange(0, k + 1);
            assert(sub.drop_last() =~= vs.subrange(0, k as int));
            assert(sub.last() == violations@[k as int]@);
            assert(err@ =~= head + violation_bullets(sub));
            k += 1;
        }
        assert(vs.subrange(0, k as int) =~= vs);
        push_str(&mut err, "\nRule: implement EXACTLY the required API from the task specification.\nDo not reinterpret, simplify or relocate required signatures.\nReturn the COMPLETE corrected file content inside a single code block.");
        Err(err)
    }

    /// The prompt block of the locked specification (see `spec_prompt`).
    pub fn to_prompt_string(&self) -> (out: String)
        ensures
            out@ == spec_prompt(contract_prompt(methods_view(self.contract.methods@), texts(self.contract.type_constraints@),
                texts(self.contract.behavior_notes@)), oracle_path(self.oracle)),
    {
        let mut out = owned("### Specification Lock (immutable for this turn)\n");
        push_str(&mut out, "This specification was compiled once from the ORIGINAL task and cannot change during the turn.\n");
        let block = self.contract.to_prompt_string();
        if block.as_str().unicode_len() > 0 {
            push_str(&mut out, "\n");
            push_str(&mut out, block.as_str());
        } else {
            push_str(&mut out, "\nNo explicit signatures were extracted; follow the task text literally.\n");
        }
        match &self.oracle {
            Some(o) => {
                push_str(&mut out, "\n");
                push_str(&mut out, "Acceptance Oracle: `");
                push_str(&mut out, o.path.as_str());
                push_str(&mut out, "` was written before implementation and is LOCKED.\nYou MUST NOT edit, delete, move or weaken this file.\nIf its tests fail, change your implementation to satisfy them.\n");
            },
            None => {},
        }
        out
    }

    /// The directive added to repair prompts while an oracle is locked
    /// (see `repair_directive`).
    pub fn oracle_repair_directive(&self) -> (d: String)
        ensures
            d@ == repair_directive(oracle_path(self.oracle)),
    {
        match &self.oracle {
            None => String::new(),
            Some(o) => {
                let mut d = owned("\nACCEPTANCE ORACLE ACTIVE: `");
                push_str(&mut d, o.path.as_str());
                push_str(&mut d, "` is locked and immutable.\nDiagnostics pointing into that file mean your implementation's API does not match the required specification — fix the source files, never the oracle.");
                d
            },
        }
    }

    /// Whether `path` is the locked oracle file of this turn.
    pub fn locks_path(&self, path: &str) -> (b: bool)
        ensures
            b == match self.oracle {
                Some(o) => paths_match(path@, o.path@),
                None => false,
            },
    {
        match &self.oracle {
            Some(o) => file_matches(path, o.path.as_str()),
            None => false,
        }
    }
}

/// The package name of a manifest: on the first line that, trimmed,
/// starts with `name` and then (after blanks) `=`, the rest trimmed and
/// stripped of double and then single quotes, when that is not empty.
pub open spec fn package_name(lines: Seq<Seq<char>>) -> Option<Seq<char>>
    decreases lines.len(),
{
    if lines.len() == 0 {
        None
    } else {
        let t = trim_ws(lines[0]);
        let rest = trim_start_ws(t.subrange(4, t.len() as int));
        let value = trim_char(trim_char(trim_ws(rest.subrange(1, rest.len() as int)), '"'), '\'');
        if has_prefix(t, "name"@) && rest.len() > 0 && rest[0] == '=' && value.len() > 0 {
            Some(value)
        } else {
            package_name(lines.drop_first())
        }
    }
}

/// Where `v[from..]` starts once leading whitespace is removed.
pub fn trim_start_index(v: &[char], from: usize) -> (r: usize)
    requires
        from <= v@.len(),
    ensures
        from <= r <= v@.len(),
        v@.subrange(r as int, v@.len() as int) == trim_start_ws(v@.subrange(from as int, v@.len() as int)),
{
    let n = v.len();
    let mut r = from;
    while r < n && is_whitespace(v[r])
        invariant
            from <= r <= n == v@.len(),
            trim_start_ws(v@.subrange(r as int, n as int)) == trim_start_ws(v@.subrange(from as int, n as int)),
        decreases n - r,
    {
        assert(v@.subrange(r as int, n as int).drop_first() =~= v@.subrange(r + 1, n as int));
        r += 1;
    }
    r
}

/// The package name of a Cargo manifest (see `package_name`).
pub fn package_name_of(manifest: &str) -> (r: Option<String>)
    ensures
        ot(r) == package_name(text_lines(manifest@)),
{
    proof { reveal_strlit("name"); }
    let lines = split_lines(manifest);
    let ghost ls = text_lines(manifest@);
    let mut i: usize = 0;
    assert(ls.subrange(0, ls.len() as int) =~= ls);
    while i < lines.len()
        invariant
            i <= lines@.len(),
            lines@.len() == ls.len(),
            ls == text_lines(manifest@),
            "name"@.len() == 4,
            forall|k: int| 0 <= k < lines@.len() ==> (#[trigger] lines@[k])@ == ls[k],
            package_name(ls.subrange(i as int, ls.len() as int)) == package_name(ls),
        decreases lines@.len() - i,
    {
        let ghost rest_lines = ls.subrange(i as int, ls.len() as int);
        assert(rest_lines.drop_first() =~= ls.subrange(i + 1, ls.len() as int));
        assert(rest_lines[0] == ls[i as int]);
        let v = chars_of(lines[i].as_str());
        let (a, b) = trim_bounds(v.as_slice(), 0, v.len());
        assert(v@.subrange(0, v@.len() as int) =~= v@);
        let t = sub_vec(v.as_slice(), a, b);
        if starts_with_str(t.as_slice(), "name") {
            let ghost rest = trim_start_ws(t@.subrange(4, t@.len() as int));
            let r0 = trim_start_index(t.as_slice(), 4);
            if r0 < t.len() && t[r0] == '=' {
                let (a1, b1) = trim_bounds(t.as_slice(), r0 + 1, t.len());
                let (a2, b2) = trim_char_bounds(t.as_slice(), a1, b1, '"');
                let (a3, b3) = trim_char_bounds(t.as_slice(), a2, b2, '\'');
                assert(rest.subrange(1, rest.len() as int) =~= t@.subrange(r0 + 1, t@.len() as int));
                if b3 > a3 {
                    return Some(string_of(t.as_slice(), a3, b3));
                }
            }
        }
        i += 1;
    }
    assert(ls.subrange(i as int, ls.len() as int) =~= Seq::<Seq<char>>::empty());
    None
}

/// A symbol's owner and the signature text to read: for a name
/// `Owner::rest`, the trimmed owner and `rest` without leading `pub `;
/// otherwise no owner and the recorded signature (or nothing).
pub open spec fn sym_source(sym: SymView) -> (Option<Seq<char>>, Seq<char>) {
    match find_seq(sym.0, "::"@, 0) {
        Some(k) => (Some(trim_ws(sym.0.subrange(0, k))), strip_prefixes(sym.0.subrange(k + 2, sym.0.len() as int), "pub "@)),
        None => (None, match sym.2 { Some(t) => t, None => Seq::empty() }),
    }
}

/// Where the word `fn` that opens a text (after trivia) ends.
pub open spec fn leading_fn(s: Seq<u8>) -> Option<int> {
    let p = skip_trivia(s, 0);
    if 0 <= p && p + 2 <= s.len() && s.subrange(p, p + 2) == fn_bytes() && (p + 2 == s.len() || !ident_byte(s[p + 2])) {
        Some(p + 2)
    } else {
        None
    }
}

/// Whether a symbol's signature text can be read: its bytes fit the
/// machine, and reading it does not run past its end.
pub open spec fn sym_readable(sym: SymView) -> bool {
    let b = encode_utf8(sym_source(sym).1);
    &&& b.len() < usize::MAX - 8
    &&& match leading_fn(b) {
        Some(q) => !fn_after_name(b, q).0,
        None => true,
    }
}

/// The baseline entry of a symbol whose signature text reads as a
/// signature: its key, and its recorded signature text (or the rendering).
pub open spec fn sym_entry(sym: SymView) -> Option<(Seq<char>, EntryView)> {
    let src = sym_source(sym);
    let b = encode_utf8(src.1);
    if src.1.len() == 0 {
        None
    } else {
        match leading_fn(b) {
            None => None,
            Some(q) => match fn_after_name(b, q).1 {
                None => None,
                Some(x) => Some((sig_key(src.0, x.0.0), (x.0, match sym.2 {
                    Some(t) => t,
                    None => render_sig(x.0),
                }))),
            },
        }
    }
}

/// The baseline of symbols read in order, a later entry replacing an
/// earlier one of the same key.
pub open spec fn baseline_of(syms: Seq<SymView>) -> Map<Seq<char>, EntryView>
    decreases syms.len(),
{
    if syms.len() == 0 {
        Map::empty()
    } else {
        match sym_entry(syms.last()) {
            Some(e) => baseline_of(syms.drop_last()).insert(e.0, e.1),
            None => baseline_of(syms.drop_last()),
        }
    }
}

/// The symbols of the files, file by file.
pub open spec fn all_symbols(files: Seq<FileInfo>) -> Seq<SymView>
    decreases files.len(),
{
    if files.len() == 0 {
        Seq::empty()
    } else {
        all_symbols(files.drop_last()) + files.last().symbols@.map_values(|s: Symbol| sym_view(s))
    }
}

/// The position after the leading run of `p` in `t` (see `strip_prefixes`).
fn strip_prefix_run(t: &[char], p: &[char]) -> (k: usize)
    requires
        p@.len() > 0,
    ensures
        k <= t@.len(),
        t@.subrange(k as int, t@.len() as int) == strip_prefixes(t@, p@),
{
    let n = t.len();
    let m = p.len();
    let mut k: usize = 0;
    assert(t@.subrange(0, n as int) =~= t@);
    loop
        invariant
            k <= n == t@.len(),
            m == p@.len() > 0,
            strip_prefixes(t@.subrange(k as int, n as int), p@) == strip_prefixes(t@, p@),
        decreases n - k,
    {
        let ghost rest = t@.subrange(k as int, n as int);
        if n - k < m {
            return k;
        }
        let mut j: usize = 0;
        while j < m
            invariant
                k + m <= n == t@.len(),
                m == p@.len() > 0,
                j <= m,
                rest == t@.subrange(k as int, n as int),
                strip_prefixes(rest, p@) == strip_prefixes(t@, p@),
                forall|x: int| 0 <= x < j ==> t@[k + x] == p@[x],
            decreases m - j,
        {
            if t[k + j] != p[j] {
                assert(rest.subrange(0, m as int)[j as int] != p@[j as int]);
                return k;
            }
            j += 1;
        }
        assert(rest.subrange(0, m as int) =~= p@);
        assert(rest.subrange(m as int, rest.len() as int) =~= t@.subrange(k + m, n as int));
        k += m;
    }
}

fn sym_source_exec(sym: &Symbol) -> (r: (Option<String>, String))
    ensures
        (ot(r.0), r.1@) == sym_source(sym_view(*sym)),
{
    proof {
        reveal_strlit("::");
        reveal_strlit("pub ");
    }
    let nv = chars_of(sym.name.as_str());
    let sep = chars_of("::");
    match find_from(nv.as_slice(), sep.as_slice(), 0) {
        Some(k) => {
            proof {
                lemma_find_seq(nv@, "::"@, 0);
                assert("::"@ =~= seq![':', ':']);
                assert(sep@ == "::"@);
            }
            let len = nv.len();
            assert(k + 2 <= len);
            let (a, b) = trim_bounds(nv.as_slice(), 0, k);
            let rest = sub_vec(nv.as_slice(), k + 2, len);
            let pv = chars_of("pub ");
            let m = strip_prefix_run(rest.as_slice(), pv.as_slice());
            (Some(string_of(nv.as_slice(), a, b)), string_of(rest.as_slice(), m, rest.len()))
        },
        None => (None, match &sym.signature {
            Some(t) => t.clone(),
            None => String::new(),
        }),
    }
}

fn leading_fn_exec(s: &[u8]) -> (r: Option<usize>)
    requires
        s@.len() < usize::MAX - 8,
    ensures
        match r {
            Some(q) => leading_fn(s@) == Some(q as int) && q <= s@.len(),
            None => leading_fn(s@) is None,
        },
{
    let n = s.len();
    let p = skip_trivia_exec(s, 0);
    if n - p >= 2 && s[p] == 102u8 && s[p + 1] == 110u8 && (n - p == 2 || !is_ident_byte(s[p + 2])) {
        assert(s@.subrange(p as int, p + 2) =~= fn_bytes());
        Some(p + 2)
    } else {
        proof {
            if n - p >= 2 && s@.subrange(p as int, p + 2) == fn_bytes() {
                assert(s@.subrange(p as int, p + 2)[0] == s@[p as int]);
                assert(s@.subrange(p as int, p + 2)[1] == s@[p + 1]);
            }
        }
        None
    }
}

fn sym_entry_exec(sym: &Symbol) -> (r: Option<(String, BaselineEntry)>)
    requires
        sym_readable(sym_view(*sym)),
    ensures
        match r {
            Some(e) => sym_entry(sym_view(*sym)) == Some((e.0@, entry_view(e.1))),
            None => sym_entry(sym_view(*sym)) is None,
        },
{
    let (owner, src) = sym_source_exec(sym);
    if src.as_str().unicode_len() == 0 {
        return None;
    }
    let b = src.as_str().as_bytes();
    match leading_fn_exec(b) {
        None => None,
        Some(q) => {
            let (_, found) = fn_after_name_exec(b, q);
            match found {
                None => None,
                Some((sig, _)) => {
                    let key = match &owner {
                        Some(o) => {
                            let mut k = o.clone();
                            push_str(&mut k, "::");
                            push_str(&mut k, sig.name.as_str());
                            k
                        },
                        None => sig.name.clone(),
                    };
                    let raw = match &sym.signature {
                        Some(t) => t.clone(),
                        None => sig.render(),
                    };
                    Some((key, BaselineEntry { sig, raw }))
                },
            }
        },
    }
}

/// The baseline of a repository's files (see `baseline_of`).
pub fn baseline_from_files(files: &Vec<FileInfo>) -> (b: Baseline)
    requires
        forall|i: int, j: int| 0 <= i < files@.len() && 0 <= j < files@[i].symbols@.len()
            ==> sym_readable(sym_view(#[trigger] files@[i].symbols@[j])),
    ensures
        b@ == baseline_of(all_symbols(files@)),
{
    let mut b = Baseline::new();
    let mut fi: usize = 0;
    assert(all_symbols(files@.subrange(0, 0)) =~= Seq::<SymView>::empty());
    while fi < files.len()
        invariant
            fi <= files@.len(),
            forall|i: int, j: int| 0 <= i < files@.len() && 0 <= j < files@[i].symbols@.len()
                ==> sym_readable(sym_view(#[trigger] files@[i].symbols@[j])),
            b@ == baseline_of(all_symbols(files@.subrange(0, fi as int))),
        decreases files@.len() - fi,
    {
        let f = &files[fi];
        let ghost prev = all_symbols(files@.subrange(0, fi as int));
        let ghost ys = f.symbols@.map_values(|s: Symbol| sym_view(s));
        proof {
            let sub = files@.subrange(0, fi + 1);
            assert(sub.drop_last() =~= files@.subrange(0, fi as int));
            assert(all_symbols(sub) == prev + ys);
        }
        let mut si: usize = 0;
        assert(prev + ys.subrange(0, 0) =~= prev);
        while si < f.symbols.len()
            invariant
                fi < files@.len(),
                *f == files@[fi as int],
                si <= f.symbols@.len(),
                ys == f.symbols@.map_values(|s: Symbol| sym_view(s)),
                forall|i: int, j: int| 0 <= i < files@.len() && 0 <= j < files@[i].symbols@.len()
                    ==> sym_readable(sym_view(#[trigger] files@[i].symbols@[j])),
                b@ == baseline_of(prev + ys.subrange(0, si as int)),
            decreases f.symbols@.len() - si,
        {
            let sym = &f.symbols[si];
            assert(sym_readable(sym_view(files@[fi as int].symbols@[si as int])));
            let ghost xs = prev + ys.subrange(0, si + 1);
            assert(xs.drop_last() =~= prev + ys.subrange(0, si as int));
            assert(xs.last() == sym_view(*sym));
            match sym_entry_exec(sym) {
                Some((key, entry)) => {
                    b.insert(key, entry);
                },
                None => {},
            }
            si += 1;
        }
        assert(prev + ys.subrange(0, si as int) =~= prev + ys);
        fi += 1;
    }
    assert(files@.subrange(0, fi as int) =~= files@);
    b
}

impl TaskSpec {
    /// The specification of a task in a workspace: `from_task`, with the
    /// package name of the manifest, the crate root's text and the baseline
    /// of the repository's files.
    pub fn compile(task: &str, manifest: Option<&str>, crate_root: Option<String>, files: &Vec<FileInfo>) -> (r: TaskSpec)
        requires
            forall|i: int, j: int| 0 <= i < files@.len() && 0 <= j < files@[i].symbols@.len()
                ==> sym_readable(sym_view(#[trigger] files@[i].symbols@[j])),
        ensures
            r.raw_task@ == task@,
            (methods_view(r.contract.methods@), texts(r.contract.type_constraints@), texts(r.contract.behavior_notes@))
                == contract_of(task@),
            r.baseline@ == baseline_of(all_symbols(files@)),
            r.oracle is None,
            ot(r.crate_name) == match manifest {
                Some(m) => package_name(text_lines(m@)),
                None => None,
            },
            r.lib_rs == crate_root,
    {
        let mut spec = TaskSpec::from_task(task);
        spec.crate_name = match manifest {
            Some(m) => package_name_of(m),
            None => None,
        };
        spec.lib_rs = crate_root;
        spec.baseline = baseline_from_files(files);
        spec
    }
}

/// An ASCII letter or digit.
pub open spec fn ascii_alnum(c: char) -> bool {
    ('0' <= c && c <= '9') || ('a' <= c && c <= 'z') || ('A' <= c && c <= 'Z')
}

/// The body of the first fenced code block of a reply: the reply is
/// trimmed, the text after the first fence is taken, a first line made of
/// ASCII letters and digits only (a language tag, once trimmed) is dropped,
/// and the text up to the next fence, trimmed, is the body when not empty.
pub open spec fn rust_block(reply: Seq<char>) -> Option<Seq<char>> {
    let t = trim_ws(reply);
    match find_seq(t, "```"@, 0) {
        None => None,
        Some(k) => {
            let a = t.subrange(k + 3, t.len() as int);
            let nl = index_of(a, '\n', 0);
            let tag = trim_ws(a.subrange(0, nl));
            let body = if nl < a.len() && (forall|i: int| 0 <= i < tag.len() ==> ascii_alnum(#[trigger] tag[i])) {
                a.subrange(nl + 1, a.len() as int)
            } else {
                a
            };
            match find_seq(body, "```"@, 0) {
                None => None,
                Some(e) => {
                    let b = trim_ws(body.subrange(0, e));
                    if b.len() > 0 { Some(b) } else { None }
                },
            }
        },
    }
}

/// The body of the first fenced code block of a reply (see `rust_block`).
#[verifier::spinoff_prover]
#[verifier::rlimit(60)]
pub fn extract_rust_block(reply: &str) -> (r: Option<String>)
    ensures
        ot(r) == rust_block(reply@),
{
    proof { reveal_strlit("```"); }
    let fence = chars_of("```");
    assert(fence@ =~= seq!['`', '`', '`']);
    let v = chars_of(reply);
    let (ta, tb) = trim_bounds(v.as_slice(), 0, v.len());
    assert(v@.subrange(0, v@.len() as int) =~= v@);
    let t = sub_vec(v.as_slice(), ta, tb);
    match find_from(t.as_slice(), fence.as_slice(), 0) {
        None => None,
        Some(k) => {
            proof { lemma_find_seq(t@, "```"@, 0); }
            let tl = t.len();
            assert(k + 3 <= tl);
            let a = sub_vec(t.as_slice(), k + 3, tl);
            let nl = index_of_char(a.as_slice(), '\n', 0);
            proof { lemma_index_of(a@, '\n', 0); }
            let mut tagged = false;
            if nl < a.len() {
                let (ga, gb) = trim_bounds(a.as_slice(), 0, nl);
                let ghost tag = a@.subrange(ga as int, gb as int);
                let mut i = ga;
                let mut all = true;
                while i < gb
                    invariant
                        ga <= i <= gb <= a@.len(),
                        tag == a@.subrange(ga as int, gb as int),
                        all == (forall|x: int| 0 <= x < i - ga ==> ascii_alnum(#[trigger] tag[x])),
                    decreases gb - i,
                {
                    let c = a[i];
                    let ok = ('0' <= c && c <= '9') || ('a' <= c && c <= 'z') || ('A' <= c && c <= 'Z');
                    proof {
                        assert(tag[i - ga] == c);
                        if all && ok {
                            assert forall|x: int| 0 <= x < i + 1 - ga implies ascii_alnum(#[trigger] tag[x]) by {
                                if x < i - ga {
                                } else {
                                    assert(tag[x] == c);
                                }
                            }
                        }
                    }
                    all = all && ok;
                    i += 1;
                }
                tagged = all;
            }
            let al = a.len();
            let body = if tagged { sub_vec(a.as_slice(), nl + 1, al) } else { sub_vec(a.as_slice(), 0, al) };
            assert(a@.subrange(0, al as int) =~= a@);
            match find_from(body.as_slice(), fence.as_slice(), 0) {
                None => None,
                Some(e) => {
                    proof { lemma_find_seq(body@, "```"@, 0); }
                    let (ba, bb) = trim_bounds(body.as_slice(), 0, e);
                    if bb > ba { Some(string_of(body.as_slice(), ba, bb)) } else { None }
                },
            }
        },
    }
}

} // verus!
