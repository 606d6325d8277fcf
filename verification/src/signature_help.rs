//! Signature help: the signatures of the function that is being called, and the
//! parameter under the cursor.

use vstd::prelude::*;

use crate::hover::MAX_METHODS;
use crate::index::{
    find_named, first_named, has_name, lemma_first_named, lemma_nothing_named, name_index,
    nothing_named, package_of, resolve_submodule, submodule, DefLocation, FunctionGroup, Library,
    Method, ModuleIndex, Param, Span,
};
use crate::render::{method_text, param_text, params_text, render_param, render_type, type_text};
use crate::search::{
    first_found, first_index, law_first_found_is_first, lemma_first_found_stays,
    lemma_first_found_step, lemma_first_index, lemma_first_index_is,
};
use crate::semantic::{
    at_name, bound_to, contains_inclusive, ident_spans, range_contains, BindingKind, Ident,
    QualifiedRead, Resolution, SemanticModel,
};
use crate::strings::{
    byte_len, byte_length, cat, chars_of, copy_texts, lemma_byte_len_monotone, same_text, separated,
};
use crate::symbols::{first_child, first_child_node, node_text};
use crate::text::{
    char_units, lemma_offset_bounded, offset_at, units, LineIndex, Position,
    PositionEncoding, TextRange,
};
use crate::tree::{
    ancestors, is_tree, lemma_ancestors_bounded, lemma_ends_bounded, lemma_next_touching,
    next_touching, tokens_at, well_placed, Element, SyntaxKind, SyntaxTree, TokenAtOffset,
};

verus! {

/// Where the cursor is among the arguments.
#[derive(Debug)]
pub enum Active {
    /// At a positional argument, counted from zero.
    Positional(usize),
    /// At a keyword argument, with its name where one is being typed.
    Keyword(Option<String>),
}

/// What an [`Active`] says.
pub enum ActiveView {
    Positional(nat),
    Keyword(Option<Seq<char>>),
}

impl DeepView for Active {
    type V = ActiveView;

    open spec fn deep_view(&self) -> ActiveView {
        match *self {
            Active::Positional(i) => ActiveView::Positional(i as nat),
            Active::Keyword(name) => ActiveView::Keyword(name.deep_view()),
        }
    }
}

/// A number held to 32 bits.
pub open spec fn clamped(n: int) -> u32 {
    if n <= u32::MAX {
        n as u32
    } else {
        u32::MAX
    }
}

fn clamp(n: usize) -> (r: u32)
    ensures
        r == clamped(n as int),
{
    if n <= 0xffff_ffff {
        n as u32
    } else {
        u32::MAX
    }
}

/// That a parameter takes all further arguments.
pub open spec fn is_vararg() -> spec_fn(Param) -> bool {
    |param: Param| param.is_vararg
}

/// That a parameter has a name.
pub open spec fn is_param_named(name: Seq<char>) -> spec_fn(Param) -> bool {
    |param: Param| param.name is Some && param.name->0@ == name
}

/// The parameter under the cursor, counted across positional and keyword
/// parameters: a positional argument is at the parameter in its position, held to
/// the one that takes all further arguments where there is one, and at none where
/// the method has no parameter there; a keyword that is not known is at the first.
pub open spec fn parameter_at(method: Method, active: ActiveView) -> Option<u32> {
    match active {
        ActiveView::Positional(i) => {
            let vararg = first_index(method.params@, is_vararg());
            if vararg < method.params.len() && vararg <= i {
                Some(clamped(vararg))
            } else if i < method.params.len() {
                Some(clamped(i as int))
            } else {
                None
            }
        },
        ActiveView::Keyword(name) => {
            let at = match name {
                Some(name) => first_index(method.keyword_params@, is_param_named(name)),
                None => method.keyword_params.len() as int,
            };
            if at < method.keyword_params.len() {
                Some(clamped(method.params.len() + at))
            } else if method.keyword_params.len() > 0 {
                Some(clamped(method.params.len() as int))
            } else {
                None
            }
        },
    }
}

/// The parameter under the cursor is one of the method's; a positional argument
/// has one exactly where the method has a parameter in its position or takes all
/// further arguments.
pub proof fn law_active_parameter_exists(method: Method, active: ActiveView)
    requires
        method.params.len() + method.keyword_params.len() <= u32::MAX,
    ensures
        parameter_at(method, active) is Some ==> parameter_at(method, active)->0
            < method.params.len() + method.keyword_params.len(),
        active is Positional ==> (parameter_at(method, active) is Some <==> active->Positional_0
            < method.params.len() || exists|k: int|
            0 <= k < method.params.len() && (#[trigger] method.params@[k]).is_vararg),
{
    let here = is_vararg();
    lemma_first_index(method.params@, here);
    match active {
        ActiveView::Positional(i) => {
            let vararg = first_index(method.params@, here);
            if vararg < method.params.len() {
                assert(method.params@[vararg].is_vararg);
            } else {
                assert forall|k: int| 0 <= k < method.params.len() implies !(
                #[trigger] method.params@[k]).is_vararg by {
                    assert(!here(method.params@[k]));
                }
            }
        },
        ActiveView::Keyword(Some(name)) => {
            lemma_first_index(method.keyword_params@, is_param_named(name));
        },
        _ => {},
    }
}

fn first_vararg(params: &Vec<Param>) -> (r: usize)
    ensures
        r == first_index(params@, is_vararg()),
        r <= params.len(),
{
    let ghost here = is_vararg();
    let mut at: usize = 0;
    while at < params.len() && !params[at].is_vararg
        invariant
            at <= params.len(),
            here == is_vararg(),
            forall|k: int| 0 <= k < at ==> !here(#[trigger] params@[k]),
        decreases params.len() - at,
    {
        at = at + 1;
    }
    proof {
        lemma_first_index_is(params@, here, at as int);
    }
    at
}

fn is_named(param: &Param, name: &str) -> (r: bool)
    ensures
        r == is_param_named(name@)(*param),
{
    match &param.name {
        Some(own) => same_text(own.as_str(), name),
        None => false,
    }
}

fn first_param_named(params: &Vec<Param>, name: &str) -> (r: usize)
    ensures
        r == first_index(params@, is_param_named(name@)),
        r <= params.len(),
{
    let ghost here = is_param_named(name@);
    let mut at: usize = 0;
    while at < params.len() && !is_named(&params[at], name)
        invariant
            at <= params.len(),
            here == is_param_named(name@),
            forall|k: int| 0 <= k < at ==> !here(#[trigger] params@[k]),
        decreases params.len() - at,
    {
        at = at + 1;
    }
    proof {
        lemma_first_index_is(params@, here, at as int);
    }
    at
}

/// The parameter of `method` under the cursor.
pub fn active_parameter(method: &Method, active: &Active) -> (r: Option<u32>)
    ensures
        r == parameter_at(*method, active.deep_view()),
{
    match active {
        Active::Positional(i) => {
            let count = method.params.len();
            let vararg = first_vararg(&method.params);
            if vararg < count && vararg <= *i {
                Some(clamp(vararg))
            } else if *i < count {
                Some(clamp(*i))
            } else {
                None
            }
        },
        Active::Keyword(name) => {
            let base = method.params.len();
            if let Some(name) = name {
                let at = first_param_named(&method.keyword_params, name.as_str());
                if at < method.keyword_params.len() {
                    return if base <= 0xffff_ffff && at <= 0xffff_ffff {
                        let sum: u64 = base as u64 + at as u64;
                        if sum <= 0xffff_ffff {
                            Some(sum as u32)
                        } else {
                            Some(u32::MAX)
                        }
                    } else {
                        Some(u32::MAX)
                    };
                }
            }
            if method.keyword_params.len() > 0 {
                Some(clamp(base))
            } else {
                None
            }
        },
    }
}

/// Whether a method can take the argument under the cursor.
pub open spec fn takes(method: Method, active: ActiveView) -> bool {
    match active {
        ActiveView::Positional(i) => method.params.len() > i || first_index(
            method.params@,
            is_vararg(),
        ) < method.params.len(),
        ActiveView::Keyword(_) => method.keyword_params.len() > 0,
    }
}

/// Whether `method` can take the argument under the cursor.
pub fn fits(method: &Method, active: &Active) -> (r: bool)
    ensures
        r == takes(*method, active.deep_view()),
{
    match active {
        Active::Positional(i) => method.params.len() > *i || first_vararg(&method.params)
            < method.params.len(),
        Active::Keyword(_) => method.keyword_params.len() > 0,
    }
}

/// How many UTF-16 units a text takes, held to 32 bits.
pub open spec fn label_offset(s: Seq<char>) -> u32 {
    clamped(units(s, PositionEncoding::Utf16) as int)
}

proof fn lemma_units_step(s: Seq<char>, i: int)
    requires
        0 <= i < s.len(),
    ensures
        units(s.take(i + 1), PositionEncoding::Utf16) == units(
            s.take(i),
            PositionEncoding::Utf16,
        ) + crate::text::unit_width(s[i], PositionEncoding::Utf16),
{
    assert(s.take(i + 1).drop_last() =~= s.take(i));
}

proof fn lemma_units_bytes(s: Seq<char>)
    ensures
        units(s, PositionEncoding::Utf16) <= byte_len(s),
    decreases s.len(),
{
    if s.len() > 0 {
        lemma_units_bytes(s.drop_last());
    }
}

fn utf16_length(text: &str) -> (r: u32)
    ensures
        r == label_offset(text@),
{
    let ghost s = text@;
    let chars = chars_of(text);
    let bytes = byte_length(text);
    let mut total: usize = 0;
    let mut i: usize = 0;
    proof {
        assert(s.take(0) =~= Seq::<char>::empty());
    }
    while i < chars.len()
        invariant
            chars@ == s,
            bytes == byte_len(s),
            i <= s.len(),
            total == units(s.take(i as int), PositionEncoding::Utf16),
        decreases s.len() - i,
    {
        proof {
            lemma_units_step(s, i as int);
            lemma_units_bytes(s.take(i + 1));
            lemma_byte_len_monotone(s, i + 1, s.len() as int);
        }
        total = total + char_units(chars[i], PositionEncoding::Utf16) as usize;
        i = i + 1;
    }
    proof {
        assert(s.take(i as int) =~= s);
    }
    clamp(total)
}

/// The texts of parameters.
pub open spec fn param_texts(params: Seq<Param>) -> Seq<Seq<char>> {
    Seq::new(params.len(), |i: int| param_text(params[i]))
}

/// What stands before the `n`-th of a number of texts with commas between.
pub open spec fn listed_before(texts: Seq<Seq<char>>, n: int) -> Seq<char> {
    if n <= 0 {
        Seq::empty()
    } else {
        separated(texts.take(n), ", "@) + ", "@
    }
}

/// Where the texts of a list stand in a label, behind `head`.
pub open spec fn list_spans(head: Seq<char>, texts: Seq<Seq<char>>) -> Seq<(u32, u32)> {
    Seq::new(
        texts.len(),
        |i: int|
            (
                label_offset(head + listed_before(texts, i)),
                label_offset(head + listed_before(texts, i) + texts[i]),
            ),
    )
}

/// Where the parameters of a method stand in its label: the positional ones, then
/// the keywords.
pub open spec fn label_spans(name: Seq<char>, method: Method) -> Seq<(u32, u32)> {
    list_spans(name + "("@, param_texts(method.params@)) + list_spans(
        name + "("@ + params_text(method.params@) + "; "@,
        param_texts(method.keyword_params@),
    )
}

proof fn lemma_listed_prefix(texts: Seq<Seq<char>>, n: int)
    requires
        0 < n <= texts.len(),
    ensures
        separated(texts.take(n), ", "@).is_prefix_of(separated(texts, ", "@)),
        separated(texts.take(n), ", "@) == listed_before(texts, n - 1) + texts[n - 1],
    decreases texts.len(),
{
    let whole = separated(texts, ", "@);
    assert(texts.take(n).drop_last() =~= texts.take(n - 1));
    assert(texts.take(n).last() == texts[n - 1]);
    assert(separated(texts.take(n), ", "@) =~= listed_before(texts, n - 1) + texts[n - 1]);
    if n == texts.len() {
        assert(texts.take(n) =~= texts);
    } else {
        lemma_listed_prefix(texts.drop_last(), n);
        assert(texts.drop_last().take(n) =~= texts.take(n));
        let inner = separated(texts.drop_last(), ", "@);
        assert(whole == inner + ", "@ + texts.last());
        assert(whole.take(inner.len() as int) =~= inner);
        assert(whole.take(separated(texts.take(n), ", "@).len() as int) =~= inner.take(
            separated(texts.take(n), ", "@).len() as int,
        ));
    }
}

/// What is marked in a label as a parameter is the text of that parameter: the
/// label begins with what stands before it, and goes on with its text.
pub proof fn law_spans_mark_parameters(name: Seq<char>, method: Method, i: int) -> (head: Seq<
    char,
>)
    requires
        0 <= i < method.params.len() + method.keyword_params.len(),
    ensures
        ({
            let text = if i < method.params.len() {
                param_text(method.params@[i])
            } else {
                param_text(method.keyword_params@[i - method.params.len()])
            };
            &&& label_spans(name, method)[i] == (label_offset(head), label_offset(head + text))
            &&& (head + text).is_prefix_of(name + method_text(method))
        }),
{
    let label = name + method_text(method);
    let n = method.params.len() as int;
    if i < n {
        lemma_label_parts(name, method);
        lemma_list_marks(name + "("@, param_texts(method.params@), label, i);
        name + "("@ + listed_before(param_texts(method.params@), i)
    } else {
        let before = name + "("@ + params_text(method.params@) + "; "@;
        lemma_label_parts(name, method);
        lemma_list_marks(before, param_texts(method.keyword_params@), label, i - n);
        before + listed_before(param_texts(method.keyword_params@), i - n)
    }
}

/// A label begins with its positional parameters, and where there are keywords
/// with these behind them.
proof fn lemma_label_parts(name: Seq<char>, method: Method)
    ensures
        ({
            let label = name + method_text(method);
            let first = name + "("@ + separated(param_texts(method.params@), ", "@);
            let both = name + "("@ + params_text(method.params@) + "; "@ + separated(
                param_texts(method.keyword_params@),
                ", "@,
            );
            &&& first.is_prefix_of(label)
            &&& method.keyword_params.len() > 0 ==> both.is_prefix_of(label)
        }),
{
    let p = params_text(method.params@);
    let k = params_text(method.keyword_params@);
    assert(p == separated(param_texts(method.params@), ", "@));
    assert(k == separated(param_texts(method.keyword_params@), ", "@));
    let middle = if method.keyword_params.len() > 0 {
        "; "@ + k
    } else {
        Seq::empty()
    };
    let end = match method.return_type {
        Some(ret) => "::"@ + type_text(ret),
        None => Seq::empty(),
    };
    let rest = middle + ")"@ + end;
    assert(method_text(method) == "("@ + p + middle + ")"@ + end);
    let label = name + method_text(method);
    lemma_prefix_of_concat(name + "("@ + p, rest);
    assert(label =~= name + "("@ + p + rest);
    if method.keyword_params.len() > 0 {
        let both = name + "("@ + p + "; "@ + k;
        lemma_prefix_of_concat(both, ")"@ + end);
        assert(label =~= both + (")"@ + end));
    }
}

proof fn lemma_prefix_of_concat(a: Seq<char>, b: Seq<char>)
    ensures
        a.is_prefix_of(a + b),
{
    assert((a + b).take(a.len() as int) =~= a);
}

/// Of a list in a label, what is marked at `i` is the `i`-th text.
proof fn lemma_list_marks(open: Seq<char>, texts: Seq<Seq<char>>, label: Seq<char>, i: int)
    requires
        0 <= i < texts.len(),
        (open + separated(texts, ", "@)).is_prefix_of(label),
    ensures
        ({
            let head = open + listed_before(texts, i);
            &&& list_spans(open, texts)[i] == (label_offset(head), label_offset(head + texts[i]))
            &&& (head + texts[i]).is_prefix_of(label)
        }),
{
    let head = open + listed_before(texts, i);
    lemma_listed_prefix(texts, i + 1);
    assert(head + texts[i] =~= open + separated(texts.take(i + 1), ", "@));
    lemma_prefix_behind(open, separated(texts.take(i + 1), ", "@), separated(texts, ", "@), label);
}

/// A text that begins with a head and a whole begins with the head and any
/// beginning of the whole.
proof fn lemma_prefix_behind(head: Seq<char>, part: Seq<char>, whole: Seq<char>, text: Seq<char>)
    requires
        part.is_prefix_of(whole),
        (head + whole).is_prefix_of(text),
    ensures
        (head + part).is_prefix_of(text),
{
    let n = (head + part).len() as int;
    assert forall|i: int| 0 <= i < n implies #[trigger] text[i] == (head + part)[i] by {
        assert(text[i] == (head + whole)[i]);
        if i >= head.len() {
            assert(whole[i - head.len()] == part[i - head.len()]);
        }
    }
    assert(text.take(n) =~= head + part);
}

/// Appends parameters to a label, and notes where they stand.
fn push_params(out: &mut String, spans: &mut Vec<(u32, u32)>, params: &Vec<Param>)
    ensures
        final(out)@ == old(out)@ + params_text(params@),
        final(spans)@ == old(spans)@ + list_spans(old(out)@, param_texts(params@)),
{
    let ghost head = out@;
    let ghost before = spans@;
    let ghost texts = param_texts(params@);
    let ghost goal = list_spans(head, texts);
    let mut i: usize = 0;
    proof {
        assert(texts.take(0) =~= Seq::<Seq<char>>::empty());
        assert(head + separated(texts.take(0), ", "@) =~= head);
        assert(before + goal.take(0) =~= before);
    }
    while i < params.len()
        invariant
            i <= params.len(),
            texts == param_texts(params@),
            goal == list_spans(head, texts),
            out@ == head + separated(texts.take(i as int), ", "@),
            spans@ == before + goal.take(i as int),
        decreases params.len() - i,
    {
        if i > 0 {
            out.append(", ");
        }
        proof {
            assert(out@ =~= head + listed_before(texts, i as int));
        }
        let start = utf16_length(out.as_str());
        let text = render_param(&params[i]);
        out.append(text.as_str());
        let end = utf16_length(out.as_str());
        spans.push((start, end));
        i = i + 1;
        proof {
            assert(texts.take(i as int).drop_last() =~= texts.take(i - 1));
            assert(texts.take(i as int).last() == texts[i - 1]);
            if i == 1 {
                assert(out@ =~= head + separated(texts.take(1), ", "@));
            } else {
                assert(out@ =~= head + separated(texts.take(i as int), ", "@));
            }
            assert(goal[i - 1] == (start, end));
            assert(before + goal.take(i as int) =~= (before + goal.take(i - 1)).push(goal[i - 1]));
        }
    }
    proof {
        assert(texts.take(i as int) =~= texts);
        assert(goal.take(i as int) =~= goal);
    }
}

/// The label of a method, and where its parameters stand in it.
pub fn signature_label(name: &str, method: &Method) -> (r: (String, Vec<(u32, u32)>))
    ensures
        r.0@ == name@ + method_text(*method),
        r.1@ == label_spans(name@, *method),
{
    let mut spans: Vec<(u32, u32)> = Vec::new();
    let mut out = cat(name, "(");
    push_params(&mut out, &mut spans, &method.params);
    if method.keyword_params.len() > 0 {
        out.append("; ");
        push_params(&mut out, &mut spans, &method.keyword_params);
    }
    out.append(")");
    if let Some(ret) = &method.return_type {
        let shown = render_type(ret);
        out.append("::");
        out.append(shown.as_str());
    }
    proof {
        assert(out@ =~= name@ + method_text(*method));
        assert(spans@ =~= label_spans(name@, *method));
    }
    (out, spans)
}

/// One signature.
#[derive(Debug)]
pub struct SignatureInformation {
    pub label: String,
    /// Where each parameter stands in the label, in UTF-16 units.
    pub parameters: Vec<(u32, u32)>,
    pub documentation: Option<String>,
    pub active_parameter: Option<u32>,
}

/// What a [`SignatureInformation`] says.
pub struct SignatureView {
    pub label: Seq<char>,
    pub parameters: Seq<(u32, u32)>,
    pub documentation: Option<Seq<char>>,
    pub active_parameter: Option<u32>,
}

impl DeepView for SignatureInformation {
    type V = SignatureView;

    open spec fn deep_view(&self) -> SignatureView {
        SignatureView {
            label: self.label@,
            parameters: self.parameters@,
            documentation: self.documentation.deep_view(),
            active_parameter: self.active_parameter,
        }
    }
}

/// The signatures of a function, which of them fits, and the parameter under the
/// cursor.
#[derive(Debug)]
pub struct SignatureHelp {
    pub signatures: Vec<SignatureInformation>,
    pub active_signature: u32,
    pub active_parameter: Option<u32>,
}

/// What a [`SignatureHelp`] says.
pub struct HelpView {
    pub signatures: Seq<SignatureView>,
    pub active_signature: u32,
    pub active_parameter: Option<u32>,
}

impl DeepView for SignatureHelp {
    type V = HelpView;

    open spec fn deep_view(&self) -> HelpView {
        HelpView {
            signatures: self.signatures.deep_view(),
            active_signature: self.active_signature,
            active_parameter: self.active_parameter,
        }
    }
}

/// The signature of a method.
pub open spec fn signature_of_method(
    name: Seq<char>,
    method: Method,
    doc: Option<Seq<char>>,
    active: ActiveView,
) -> SignatureView {
    SignatureView {
        label: name + method_text(method),
        parameters: label_spans(name, method),
        documentation: doc,
        active_parameter: parameter_at(method, active),
    }
}

/// That a method can take the argument under the cursor.
pub open spec fn is_taker(active: ActiveView) -> spec_fn(Method) -> bool {
    |method: Method| takes(method, active)
}

/// The help for a function: its first methods, the first of them that fits, and
/// the parameter of that one under the cursor. None for a function without
/// methods.
pub open spec fn help_for(
    name: Seq<char>,
    methods: Seq<Method>,
    doc: Option<Seq<char>>,
    active: ActiveView,
) -> Option<HelpView> {
    let shown = if methods.len() <= MAX_METHODS {
        methods
    } else {
        methods.take(MAX_METHODS as int)
    };
    let fitting = first_index(shown, is_taker(active));
    let chosen = if fitting < shown.len() {
        fitting
    } else {
        0
    };
    if methods.len() == 0 {
        None
    } else {
        Some(
            HelpView {
                signatures: Seq::new(
                    shown.len(),
                    |i: int| signature_of_method(name, shown[i], doc, active),
                ),
                active_signature: chosen as u32,
                active_parameter: parameter_at(shown[chosen], active),
            },
        )
    }
}

/// A help shows at least one signature, no more than the limit, and points at one
/// of them.
pub proof fn law_help_is_bounded(
    name: Seq<char>,
    methods: Seq<Method>,
    doc: Option<Seq<char>>,
    active: ActiveView,
)
    requires
        methods.len() > 0,
    ensures
        help_for(name, methods, doc, active) is Some,
        ({
            let help = help_for(name, methods, doc, active)->0;
            &&& 0 < help.signatures.len() <= MAX_METHODS
            &&& help.active_signature < help.signatures.len()
            &&& help.active_parameter == help.signatures[help.active_signature as int].active_parameter
        }),
{
    let shown = if methods.len() <= MAX_METHODS {
        methods
    } else {
        methods.take(MAX_METHODS as int)
    };
    lemma_first_index(shown, is_taker(active));
}

/// The help for the function `name` with `methods`.
pub fn build_signature_help(
    name: &str,
    methods: &Vec<&Method>,
    doc: &Option<String>,
    active: &Active,
) -> (r: Option<SignatureHelp>)
    ensures
        r.deep_view() == help_for(
            name@,
            Seq::new(methods.len() as nat, |i: int| *methods@[i]),
            doc.deep_view(),
            active.deep_view(),
        ),
{
    let ghost all = Seq::new(methods.len() as nat, |i: int| *methods@[i]);
    let ghost cursor = active.deep_view();
    if methods.len() == 0 {
        return None;
    }
    let count = if methods.len() <= MAX_METHODS {
        methods.len()
    } else {
        MAX_METHODS
    };
    let ghost shown = if all.len() <= MAX_METHODS {
        all
    } else {
        all.take(MAX_METHODS as int)
    };
    let ghost taker = is_taker(cursor);
    let mut signatures: Vec<SignatureInformation> = Vec::new();
    let mut fitting: usize = count;
    let mut i: usize = 0;
    while i < count
        invariant
            i <= count <= methods.len(),
            count <= MAX_METHODS,
            count == shown.len(),
            cursor == active.deep_view(),
            taker == is_taker(cursor),
            all == Seq::new(methods.len() as nat, |i: int| *methods@[i]),
            shown == (if all.len() <= MAX_METHODS {
                all
            } else {
                all.take(MAX_METHODS as int)
            }),
            signatures.len() == i,
            forall|k: int|
                0 <= k < i ==> #[trigger] signatures@[k].deep_view() == signature_of_method(
                    name@,
                    shown[k],
                    doc.deep_view(),
                    cursor,
                ),
            fitting == count ==> forall|k: int| 0 <= k < i ==> !taker(#[trigger] shown[k]),
            fitting < count ==> fitting < i && taker(shown[fitting as int]) && forall|k: int|
                0 <= k < fitting ==> !taker(#[trigger] shown[k]),
            fitting <= count,
        decreases count - i,
    {
        let method = methods[i];
        proof {
            assert(shown[i as int] == *method);
        }
        let (label, parameters) = signature_label(name, method);
        let documentation = match doc {
            Some(doc) => Some(doc.clone()),
            None => None,
        };
        if fitting == count && fits(method, active) {
            fitting = i;
        }
        signatures.push(
            SignatureInformation {
                label,
                parameters,
                documentation,
                active_parameter: active_parameter(method, active),
            },
        );
        i = i + 1;
    }
    proof {
        lemma_first_index_is(shown, taker, fitting as int);
        assert(signatures.deep_view() =~= Seq::new(
            shown.len(),
            |i: int| signature_of_method(name@, shown[i], doc.deep_view(), cursor),
        ));
    }
    let chosen = if fitting < count {
        fitting
    } else {
        0
    };
    let active_parameter = signatures[chosen].active_parameter;
    proof {
        assert(signatures@[chosen as int].deep_view().active_parameter == parameter_at(
            shown[chosen as int],
            cursor,
        ));
    }
    Some(SignatureHelp { signatures, active_signature: chosen as u32, active_parameter })
}

/// The parameter that an argument of a signature declares: its text as it stands.
pub open spec fn source_param(s: Seq<char>, t: Seq<Element>, node: int) -> Seq<char> {
    match node_text(s, t, node) {
        Some(text) => text,
        None => Seq::empty(),
    }
}

/// Whether a parameter is a text and nothing else.
pub open spec fn is_plain_param(param: Param, text: Seq<char>) -> bool {
    &&& param.name is Some
    &&& param.name->0@ == text
    &&& param.type_annotation is None
    &&& param.default is None
    &&& !param.is_vararg
}

/// The parameter that an argument of a signature declares.
pub fn param_from_source(tree: &SyntaxTree, node: usize, line_index: &LineIndex) -> (r: Param)
    requires
        node < tree.elements.len(),
        line_index.wf(),
    ensures
        is_plain_param(r, source_param(line_index@, tree@, node as int)),
{
    let range = tree.elements[node].range;
    let name = match line_index.slice(range.start as usize, range.end as usize) {
        Some(text) => text,
        None => String::new(),
    };
    Param { name: Some(name), type_annotation: None, default: None, is_vararg: false }
}

/// The list of arguments directly under a call, from element `i` on.
pub open spec fn arg_list_from(t: Seq<Element>, call: int, i: int) -> Option<int>
    decreases t[call].end - i,
{
    if i < 0 || i >= t[call].end || i >= t.len() {
        None
    } else if t[i].parent == call && !t[i].is_token && t[i].kind == SyntaxKind::ARG_LIST {
        Some(i)
    } else {
        arg_list_from(t, call, i + 1)
    }
}

/// The list of arguments of a call.
pub open spec fn arg_list_of(t: Seq<Element>, call: int) -> Option<int> {
    arg_list_from(t, call, call + 1)
}

/// The list of arguments of a call.
pub fn arg_list(tree: &SyntaxTree, call: usize) -> (r: Option<usize>)
    requires
        tree.wf(),
        call < tree.elements.len(),
    ensures
        match r {
            Some(i) => arg_list_of(tree@, call as int) == Some(i as int) && i
                < tree.elements.len(),
            None => arg_list_of(tree@, call as int) is None,
        },
{
    proof {
        lemma_ends_bounded(tree@, call as int);
    }
    let end = tree.elements[call].end;
    let mut i: usize = call + 1;
    while i < end
        invariant
            call < tree.elements.len(),
            end == tree@[call as int].end,
            end <= tree.elements.len(),
            call < i,
            arg_list_of(tree@, call as int) == arg_list_from(tree@, call as int, i as int),
        decreases end - i,
    {
        let e = tree.elements[i];
        let list = match e.kind {
            SyntaxKind::ARG_LIST => true,
            _ => false,
        };
        if e.parent == call && !e.is_token && list {
            return Some(i);
        }
        i = i + 1;
    }
    None
}

/// That a node is a call whose arguments hold an offset: behind the opening
/// bracket, up to the closing one.
pub open spec fn call_around(t: Seq<Element>, offset: u32) -> spec_fn(usize) -> Option<usize> {
    |node: usize|
        if t[node as int].kind == SyntaxKind::CALL_EXPR {
            match arg_list_of(t, node as int) {
                Some(list) => if t[list].range.start < offset <= t[list].range.end {
                    Some(node)
                } else {
                    None
                },
                None => None,
            }
        } else {
            None
        }
}

/// The token from which calls are sought: of two that meet, the left one.
pub open spec fn left_token(t: Seq<Element>, offset: u32) -> Option<usize> {
    match tokens_at(t, offset) {
        TokenAtOffset::Nothing => None,
        TokenAtOffset::Single(token) => Some(token),
        TokenAtOffset::Between(left, _) => Some(left),
    }
}

/// The token at a place: of two that meet, the right one.
pub open spec fn right_token(t: Seq<Element>, offset: u32) -> Option<usize> {
    match tokens_at(t, offset) {
        TokenAtOffset::Nothing => None,
        TokenAtOffset::Single(token) => Some(token),
        TokenAtOffset::Between(_, right) => Some(right),
    }
}

/// The innermost call whose arguments hold an offset.
pub open spec fn enclosing(t: Seq<Element>, offset: u32) -> Option<usize> {
    match left_token(t, offset) {
        Some(token) => first_found(
            ancestors(t, t[token as int].parent),
            call_around(t, offset),
        ),
        None => None,
    }
}

proof fn lemma_tokens_at(t: Seq<Element>, offset: u32)
    requires
        is_tree(t),
        t.len() <= usize::MAX,
    ensures
        left_token(t, offset) is Some ==> 0 < left_token(t, offset)->0 < t.len(),
        right_token(t, offset) is Some ==> 0 < right_token(t, offset)->0 < t.len(),
{
    lemma_next_touching(t, offset, 0);
    let left = next_touching(t, offset, 0);
    if left < t.len() {
        lemma_next_touching(t, offset, left + 1);
    }
}

/// The innermost call whose arguments hold `offset`.
pub fn enclosing_call(tree: &SyntaxTree, offset: u32) -> (r: Option<usize>)
    requires
        tree.wf(),
    ensures
        r == enclosing(tree@, offset),
        r is Some ==> r->0 < tree.elements.len() && arg_list_of(tree@, r->0 as int) is Some,
{
    let ghost t = tree@;
    proof {
        lemma_tokens_at(t, offset);
    }
    let token = match tree.token_at_offset(offset) {
        TokenAtOffset::Nothing => {
            return None;
        },
        TokenAtOffset::Single(token) => token,
        TokenAtOffset::Between(left, _) => left,
    };
    proof {
        assert(well_placed(t, token as int));
    }
    let parent = tree.elements[token].parent;
    let nodes = tree.ancestors(parent);
    let ghost find = call_around(t, offset);
    let mut i: usize = 0;
    proof {
        lemma_ancestors_bounded(t, parent);
        assert(nodes@.take(0) =~= Seq::<usize>::empty());
    }
    while i < nodes.len()
        invariant
            tree.wf(),
            t == tree@,
            find == call_around(t, offset),
            i <= nodes.len(),
            forall|k: int| 0 <= k < nodes.len() ==> #[trigger] nodes@[k] < t.len(),
            first_found(nodes@.take(i as int), find) is None,
            enclosing(t, offset) == first_found(nodes@, find),
        decreases nodes.len() - i,
    {
        proof {
            lemma_first_found_step(nodes@, find, i as int);
        }
        let node = nodes[i];
        let call = match tree.elements[node].kind {
            SyntaxKind::CALL_EXPR => true,
            _ => false,
        };
        if call {
            if let Some(list) = arg_list(tree, node) {
                let range = tree.elements[list].range;
                if range.start < offset && offset <= range.end {
                    proof {
                        lemma_first_found_stays(nodes@, find, i + 1);
                    }
                    return Some(node);
                }
            }
        }
        i = i + 1;
    }
    proof {
        assert(nodes@.take(i as int) =~= nodes@);
    }
    None
}

/// How many commas stand before an offset directly in a list of arguments, from
/// element `i` on, and whether the keywords begin before it.
pub open spec fn arguments_before(t: Seq<Element>, list: int, i: int, offset: u32) -> (nat, bool)
    decreases t[list].end - i,
{
    if i < 0 || i >= t[list].end || i >= t.len() {
        (0, false)
    } else if t[i].parent != list {
        arguments_before(t, list, i + 1, offset)
    } else if t[i].range.start >= offset {
        (0, false)
    } else {
        let (commas, keywords) = arguments_before(t, list, i + 1, offset);
        (
            if t[i].kind == SyntaxKind::COMMA {
                commas + 1
            } else {
                commas
            },
            keywords || t[i].kind == SyntaxKind::PARAMETERS || t[i].kind
                == SyntaxKind::SEMICOLON,
        )
    }
}

/// The first keyword argument that spans an offset, from element `i` on.
pub open spec fn keyword_arg_from(t: Seq<Element>, list: int, i: int, offset: u32) -> Option<int>
    decreases t[list].end - i,
{
    if i < 0 || i >= t[list].end || i >= t.len() {
        None
    } else if !t[i].is_token && t[i].kind == SyntaxKind::KEYWORD_ARG && contains_inclusive(
        t[i].range,
        offset,
    ) {
        Some(i)
    } else {
        keyword_arg_from(t, list, i + 1, offset)
    }
}

/// The name of the keyword argument that spans an offset.
pub open spec fn keyword_at(s: Seq<char>, t: Seq<Element>, list: int, offset: u32) -> Option<
    Seq<char>,
> {
    match keyword_arg_from(t, list, list, offset) {
        Some(arg) => match first_child(t, arg) {
            Some(name) => if t[name].kind == SyntaxKind::NAME {
                node_text(s, t, name)
            } else {
                None
            },
            None => None,
        },
        None => None,
    }
}

/// Where an offset is among the arguments of a list.
pub open spec fn active_at(s: Seq<char>, t: Seq<Element>, list: int, offset: u32) -> ActiveView {
    let (commas, keywords) = arguments_before(t, list, list + 1, offset);
    let keyword = keyword_at(s, t, list, offset);
    if keywords || keyword is Some {
        ActiveView::Keyword(keyword)
    } else {
        ActiveView::Positional(commas)
    }
}

fn keyword_under(tree: &SyntaxTree, list: usize, line_index: &LineIndex, offset: u32) -> (r: Option<
    String,
>)
    requires
        tree.wf(),
        list < tree.elements.len(),
        line_index.wf(),
    ensures
        r.deep_view() == keyword_at(line_index@, tree@, list as int, offset),
{
    let ghost t = tree@;
    proof {
        lemma_ends_bounded(t, list as int);
    }
    let end = tree.elements[list].end;
    let mut i: usize = list;
    while i < end
        invariant
            tree.wf(),
            t == tree@,
            line_index.wf(),
            list < t.len(),
            end == t[list as int].end,
            end <= t.len(),
            keyword_arg_from(t, list as int, list as int, offset) == keyword_arg_from(
                t,
                list as int,
                i as int,
                offset,
            ),
        decreases end - i,
    {
        let e = tree.elements[i];
        let keyword = match e.kind {
            SyntaxKind::KEYWORD_ARG => true,
            _ => false,
        };
        if !e.is_token && keyword && range_contains(e.range, offset) {
            return match first_child_node(tree, i) {
                Some(name) => match tree.elements[name].kind {
                    SyntaxKind::NAME => {
                        let range = tree.elements[name].range;
                        line_index.slice(range.start as usize, range.end as usize)
                    },
                    _ => None,
                },
                None => None,
            };
        }
        i = i + 1;
    }
    None
}

/// Where `offset` is among the arguments of a list.
pub fn active_argument(
    tree: &SyntaxTree,
    list: usize,
    line_index: &LineIndex,
    offset: u32,
) -> (r: Active)
    requires
        tree.wf(),
        list < tree.elements.len(),
        line_index.wf(),
    ensures
        r.deep_view() == active_at(line_index@, tree@, list as int, offset),
{
    let ghost t = tree@;
    proof {
        lemma_ends_bounded(t, list as int);
    }
    let end = tree.elements[list].end;
    let ghost goal = arguments_before(t, list as int, list + 1, offset);
    let mut commas: usize = 0;
    let mut keywords = false;
    let mut i: usize = list + 1;
    while i < end
        invariant_except_break
            ({
                let (more, further) = arguments_before(t, list as int, i as int, offset);
                goal == ((commas + more) as nat, keywords || further)
            }),
        invariant
            t == tree@,
            list < t.len(),
            end == t[list as int].end,
            end <= t.len(),
            list < i <= end,
            commas <= i,
        ensures
            goal == (commas as nat, keywords),
        decreases end - i,
    {
        let e = tree.elements[i];
        if e.parent == list {
            if e.range.start >= offset {
                break ;
            }
            match e.kind {
                SyntaxKind::COMMA => {
                    commas = commas + 1;
                },
                SyntaxKind::PARAMETERS | SyntaxKind::SEMICOLON => {
                    keywords = true;
                },
                _ => {},
            }
        }
        i = i + 1;
    }
    let keyword = keyword_under(tree, list, line_index, offset);
    if keywords || keyword.is_some() {
        Active::Keyword(keyword)
    } else {
        Active::Positional(commas)
    }
}

/// A function that is called: one of the library, or one of the file with its
/// parameters as they are written.
#[derive(Debug)]
pub enum Callee<'l> {
    Library(&'l FunctionGroup),
    Local { name: String, method: Method },
}

/// What a [`Callee`] says.
pub enum CalleeView {
    Library(FunctionGroup),
    Local { name: Seq<char>, params: Seq<Seq<char>>, keywords: Seq<Seq<char>> },
}

/// Whether a callee is what a view says.
pub open spec fn is_callee(callee: Callee, view: CalleeView) -> bool {
    match (callee, view) {
        (Callee::Library(group), CalleeView::Library(other)) => *group == other,
        (Callee::Local { name, method }, CalleeView::Local { name: n, params, keywords }) => {
            &&& name@ == n
            &&& are_plain_params(method.params@, params)
            &&& are_plain_params(method.keyword_params@, keywords)
            &&& method.return_type is None
        },
        _ => false,
    }
}

/// Whether parameters are texts and nothing else.
pub open spec fn are_plain_params(params: Seq<Param>, texts: Seq<Seq<char>>) -> bool {
    &&& params.len() == texts.len()
    &&& forall|i: int| 0 <= i < params.len() ==> is_plain_param(#[trigger] params[i], texts[i])
}

/// Whether a node is an argument.
pub open spec fn is_arg(e: Element) -> bool {
    !e.is_token && (e.kind == SyntaxKind::ARG || e.kind == SyntaxKind::KEYWORD_ARG)
}

/// The texts of the arguments directly under a node, before element `upto`.
pub open spec fn arg_texts(s: Seq<char>, t: Seq<Element>, node: int, upto: int) -> Seq<Seq<char>>
    decreases upto,
{
    if upto <= node + 1 || upto <= 0 {
        Seq::empty()
    } else {
        let before = arg_texts(s, t, node, upto - 1);
        let e = t[upto - 1];
        if e.parent == node && is_arg(e) {
            before.push(source_param(s, t, upto - 1))
        } else {
            before
        }
    }
}

/// The texts of the keyword parameters of a list: those in its sections of
/// keywords, before element `upto`.
pub open spec fn keyword_texts(s: Seq<char>, t: Seq<Element>, list: int, upto: int) -> Seq<
    Seq<char>,
>
    decreases upto,
{
    if upto <= list + 1 || upto <= 0 {
        Seq::empty()
    } else {
        let before = keyword_texts(s, t, list, upto - 1);
        let e = t[upto - 1];
        if e.parent == list && !e.is_token && e.kind == SyntaxKind::PARAMETERS {
            before + arg_texts(s, t, upto - 1, e.end as int)
        } else {
            before
        }
    }
}

fn push_args(tree: &SyntaxTree, node: usize, line_index: &LineIndex, out: &mut Vec<Param>)
    requires
        tree.wf(),
        node < tree.elements.len(),
        line_index.wf(),
    ensures
        forall|texts: Seq<Seq<char>>|
            #![trigger are_plain_params(old(out)@, texts)]
            are_plain_params(old(out)@, texts) ==> are_plain_params(
                final(out)@,
                texts + arg_texts(
                    line_index@,
                    tree@,
                    node as int,
                    tree@[node as int].end as int,
                ),
            ),
{
    let ghost s = line_index@;
    let ghost t = tree@;
    let ghost start = out@;
    proof {
        lemma_ends_bounded(t, node as int);
    }
    let end = tree.elements[node].end;
    let mut i: usize = node + 1;
    proof {
        assert forall|texts: Seq<Seq<char>>|
            #![trigger are_plain_params(start, texts)]
            are_plain_params(start, texts) implies are_plain_params(
            out@,
            texts + arg_texts(s, t, node as int, i as int),
        ) by {
            assert(texts + arg_texts(s, t, node as int, i as int) =~= texts);
        }
    }
    while i < end
        invariant
            tree.wf(),
            line_index.wf(),
            s == line_index@,
            t == tree@,
            node < i <= end <= t.len(),
            forall|texts: Seq<Seq<char>>|
                #![trigger are_plain_params(start, texts)]
                are_plain_params(start, texts) ==> are_plain_params(
                    out@,
                    texts + arg_texts(s, t, node as int, i as int),
                ),
        decreases end - i,
    {
        let e = tree.elements[i];
        let arg = match e.kind {
            SyntaxKind::ARG | SyntaxKind::KEYWORD_ARG => true,
            _ => false,
        };
        let ghost before = out@;
        if e.parent == node && !e.is_token && arg {
            out.push(param_from_source(tree, i, line_index));
            proof {
                assert forall|texts: Seq<Seq<char>>|
                    #![trigger are_plain_params(start, texts)]
                    are_plain_params(start, texts) implies are_plain_params(
                    out@,
                    texts + arg_texts(s, t, node as int, i + 1),
                ) by {
                    let old_texts = texts + arg_texts(s, t, node as int, i as int);
                    let new_texts = texts + arg_texts(s, t, node as int, i + 1);
                    assert(new_texts =~= old_texts.push(source_param(s, t, i as int)));
                    assert(are_plain_params(before, old_texts));
                }
            }
        }
        i = i + 1;
    }
}

/// The function of the file whose name stands at a place: the parameters of the
/// call that is its signature.
pub open spec fn local_at(s: Seq<char>, t: Seq<Element>, start: u32, name: Seq<char>) -> Option<
    CalleeView,
> {
    match right_token(t, start) {
        Some(token) => match first_found(ancestors(t, t[token as int].parent), is_call(t)) {
            Some(call) => match arg_list_of(t, call as int) {
                Some(list) => Some(
                    CalleeView::Local {
                        name,
                        params: arg_texts(s, t, list, t[list].end as int),
                        keywords: keyword_texts(s, t, list, t[list].end as int),
                    },
                ),
                None => None,
            },
            None => None,
        },
        None => None,
    }
}

/// That a node is a call.
pub open spec fn is_call(t: Seq<Element>) -> spec_fn(usize) -> Option<usize> {
    |node: usize|
        if t[node as int].kind == SyntaxKind::CALL_EXPR {
            Some(node)
        } else {
            None
        }
}

fn call_above(tree: &SyntaxTree, token: usize) -> (r: Option<usize>)
    requires
        tree.wf(),
        0 < token < tree.elements.len(),
    ensures
        r == first_found(ancestors(tree@, tree@[token as int].parent), is_call(tree@)),
        r is Some ==> r->0 < tree.elements.len(),
{
    let ghost t = tree@;
    proof {
        assert(well_placed(t, token as int));
    }
    let parent = tree.elements[token].parent;
    let nodes = tree.ancestors(parent);
    let ghost find = is_call(t);
    let mut i: usize = 0;
    proof {
        lemma_ancestors_bounded(t, parent);
        assert(nodes@.take(0) =~= Seq::<usize>::empty());
    }
    while i < nodes.len()
        invariant
            t == tree@,
            find == is_call(t),
            nodes@ == ancestors(t, parent),
            parent == t[token as int].parent,
            i <= nodes.len(),
            forall|k: int| 0 <= k < nodes.len() ==> #[trigger] nodes@[k] < t.len(),
            first_found(nodes@.take(i as int), find) is None,
        decreases nodes.len() - i,
    {
        proof {
            lemma_first_found_step(nodes@, find, i as int);
        }
        let node = nodes[i];
        match tree.elements[node].kind {
            SyntaxKind::CALL_EXPR => {
                proof {
                    lemma_first_found_stays(nodes@, find, i + 1);
                }
                return Some(node);
            },
            _ => {},
        }
        i = i + 1;
    }
    proof {
        assert(nodes@.take(i as int) =~= nodes@);
    }
    None
}

/// The function of the file whose name stands at byte `start`.
pub fn local_callee<'l>(
    tree: &SyntaxTree,
    start: u32,
    name: &str,
    line_index: &LineIndex,
) -> (r: Option<Callee<'l>>)
    requires
        tree.wf(),
        line_index.wf(),
    ensures
        match r {
            Some(callee) => local_at(line_index@, tree@, start, name@) is Some && is_callee(
                callee,
                local_at(line_index@, tree@, start, name@)->0,
            ),
            None => local_at(line_index@, tree@, start, name@) is None,
        },
{
    let ghost s = line_index@;
    let ghost t = tree@;
    proof {
        lemma_tokens_at(t, start);
    }
    let token = match tree.token_at_offset(start) {
        TokenAtOffset::Nothing => {
            return None;
        },
        TokenAtOffset::Single(token) => token,
        TokenAtOffset::Between(_, right) => right,
    };
    let call = match call_above(tree, token) {
        Some(call) => call,
        None => {
            return None;
        },
    };
    let list = match arg_list(tree, call) {
        Some(list) => list,
        None => {
            return None;
        },
    };
    let mut params: Vec<Param> = Vec::new();
    let ghost none = Seq::<Seq<char>>::empty();
    proof {
        assert(are_plain_params(params@, none));
        let texts = arg_texts(s, t, list as int, t[list as int].end as int);
        assert(none + texts =~= texts);
    }
    push_args(tree, list, line_index, &mut params);
    proof {
        lemma_ends_bounded(t, list as int);
    }
    let end = tree.elements[list].end;
    let mut keyword_params: Vec<Param> = Vec::new();
    let mut i: usize = list + 1;
    proof {
        assert(keyword_texts(s, t, list as int, i as int) =~= none);
    }
    while i < end
        invariant
            tree.wf(),
            line_index.wf(),
            s == line_index@,
            t == tree@,
            list < i <= end <= t.len(),
            are_plain_params(keyword_params@, keyword_texts(s, t, list as int, i as int)),
        decreases end - i,
    {
        let e = tree.elements[i];
        let section = match e.kind {
            SyntaxKind::PARAMETERS => true,
            _ => false,
        };
        if e.parent == list && !e.is_token && section {
            push_args(tree, i, line_index, &mut keyword_params);
        }
        i = i + 1;
    }
    Some(
        Callee::Local {
            name: name.to_owned(),
            method: Method {
                params,
                keyword_params,
                return_type: None,
                loc: DefLocation { file: String::new(), range: Span { start: 0, end: 0 } },
            },
        },
    )
}

/// The function of a name in a module.
pub fn library_callee<'l>(module: &'l ModuleIndex, name: &str) -> (r: Option<&'l FunctionGroup>)
    ensures
        match r {
            Some(group) => name_index(module.functions@, name@) < module.functions.len() && *group
                == module.functions@[name_index(module.functions@, name@)],
            None => name_index(module.functions@, name@) >= module.functions.len(),
        },
{
    let at = find_named(&module.functions, name);
    proof {
        lemma_first_index(module.functions@, has_name::<FunctionGroup>(name@));
    }
    if at < module.functions.len() {
        Some(&module.functions[at])
    } else {
        None
    }
}

/// The function of a name in a module, as a callee.
pub open spec fn callee_in(module: ModuleIndex, name: Seq<char>) -> Option<CalleeView> {
    let at = name_index(module.functions@, name);
    if at < module.functions.len() {
        Some(CalleeView::Library(module.functions@[at]))
    } else {
        None
    }
}

/// That a qualified name stands in a range.
pub open spec fn read_in(range: TextRange) -> spec_fn(QualifiedRead) -> bool {
    |read: QualifiedRead| read.range == range
}

/// The function that a qualified name names.
pub open spec fn qualified_callee(library: Library, path: Seq<Seq<char>>) -> Option<CalleeView> {
    if path.len() < 2 {
        None
    } else {
        match package_of(library, path[0]) {
            Some(package) => match submodule(package.root, path.drop_last().skip(1)) {
                Some(module) => callee_in(module, path.last()),
                None => None,
            },
            None => None,
        }
    }
}

/// The function that an occurrence means: one of the file, or one of a package.
pub open spec fn named_callee(
    s: Seq<char>,
    t: Seq<Element>,
    model: SemanticModel,
    library: Library,
    ident: Ident,
) -> Option<CalleeView> {
    match bound_to(ident) {
        Some(id) => {
            let binding = model.bindings@[id as int];
            if binding.kind == BindingKind::Function {
                local_at(s, t, binding.def_range.start, binding.name@)
            } else {
                None
            }
        },
        None => match ident.resolution {
            Resolution::System { module, name } => package_callee(library, module@, name@),
            Resolution::Using { module, name } => package_callee(library, module@, name@),
            _ => None,
        },
    }
}

/// The function of a name in the root of a package.
pub open spec fn package_callee(library: Library, module: Seq<char>, name: Seq<char>) -> Option<
    CalleeView,
> {
    match package_of(library, module) {
        Some(package) => callee_in(package.root, name),
        None => None,
    }
}

/// The function that a call calls.
pub open spec fn callee_at(
    s: Seq<char>,
    t: Seq<Element>,
    model: SemanticModel,
    library: Library,
    call: int,
) -> Option<CalleeView> {
    match first_child(t, call) {
        Some(callee) => {
            let read = first_index(model.qualified_reads@, read_in(t[callee].range));
            let ident = first_index(model.idents@, ident_spans(t[callee].range.start));
            if read < model.qualified_reads.len() {
                qualified_callee(library, model.qualified_reads@[read].path.deep_view())
            } else if t[callee].kind == SyntaxKind::NAME && ident < model.idents.len() {
                named_callee(s, t, model, library, model.idents@[ident])
            } else {
                None
            }
        },
        None => None,
    }
}

fn callee_of_package<'l>(library: &'l Library, module: &str, name: &str) -> (r: Option<
    Callee<'l>,
>)
    ensures
        match r {
            Some(callee) => package_callee(*library, module@, name@) is Some && is_callee(
                callee,
                package_callee(*library, module@, name@)->0,
            ),
            None => package_callee(*library, module@, name@) is None,
        },
{
    match library.package(module) {
        Some(package) => match library_callee(&package.root, name) {
            Some(group) => Some(Callee::Library(group)),
            None => None,
        },
        None => None,
    }
}

fn callee_of_ident<'l>(
    model: &SemanticModel,
    library: &'l Library,
    tree: &SyntaxTree,
    line_index: &LineIndex,
    ident: &Ident,
) -> (r: Option<Callee<'l>>)
    requires
        tree.wf(),
        line_index.wf(),
        bound_to(*ident) is Some ==> bound_to(*ident)->0 < model.bindings.len(),
    ensures
        match r {
            Some(callee) => named_callee(line_index@, tree@, *model, *library, *ident) is Some
                && is_callee(
                callee,
                named_callee(line_index@, tree@, *model, *library, *ident)->0,
            ),
            None => named_callee(line_index@, tree@, *model, *library, *ident) is None,
        },
{
    if let Some(id) = ident.final_binding() {
        let binding = &model.bindings[id];
        return match binding.kind {
            BindingKind::Function => local_callee(
                tree,
                binding.def_range.start,
                binding.name.as_str(),
                line_index,
            ),
            _ => None,
        };
    }
    match &ident.resolution {
        Resolution::System { module, name } => callee_of_package(
            library,
            module.as_str(),
            name.as_str(),
        ),
        Resolution::Using { module, name } => callee_of_package(
            library,
            module.as_str(),
            name.as_str(),
        ),
        _ => None,
    }
}

/// The function that `call` calls.
pub fn resolve_callee<'l>(
    model: &SemanticModel,
    library: &'l Library,
    tree: &SyntaxTree,
    line_index: &LineIndex,
    call: usize,
) -> (r: Option<Callee<'l>>)
    requires
        model.wf(),
        tree.wf(),
        line_index.wf(),
        call < tree.elements.len(),
    ensures
        match r {
            Some(callee) => callee_at(line_index@, tree@, *model, *library, call as int) is Some
                && is_callee(
                callee,
                callee_at(line_index@, tree@, *model, *library, call as int)->0,
            ),
            None => callee_at(line_index@, tree@, *model, *library, call as int) is None,
        },
{
    let callee = match first_child_node(tree, call) {
        Some(callee) => callee,
        None => {
            return None;
        },
    };
    let e = tree.elements[callee];
    let ghost here = read_in(e.range);
    let mut read: usize = 0;
    while read < model.qualified_reads.len() && model.qualified_reads[read].range != e.range
        invariant
            read <= model.qualified_reads.len(),
            here == read_in(e.range),
            forall|k: int| 0 <= k < read ==> !here(#[trigger] model.qualified_reads@[k]),
        decreases model.qualified_reads.len() - read,
    {
        read = read + 1;
    }
    proof {
        lemma_first_index_is(model.qualified_reads@, here, read as int);
    }
    if read < model.qualified_reads.len() {
        let q = &model.qualified_reads[read];
        let ghost whole = q.path.deep_view();
        let count = q.path.len();
        if count < 2 {
            return None;
        }
        proof {
            assert(whole[0] == q.path@[0]@);
            assert(whole.last() == q.path@[count - 1]@);
        }
        let package = match library.package(q.path[0].as_str()) {
            Some(package) => package,
            None => {
                return None;
            },
        };
        let mut modules = copy_texts(&q.path);
        modules.pop();
        proof {
            assert(modules.deep_view() =~= whole.drop_last());
        }
        return match resolve_submodule(&package.root, &modules, 1) {
            Some(module) => match library_callee(module, q.path[count - 1].as_str()) {
                Some(group) => Some(Callee::Library(group)),
                None => None,
            },
            None => None,
        };
    }
    match e.kind {
        SyntaxKind::NAME => {},
        _ => {
            return None;
        },
    }
    let ident = model.ident_at(e.range.start);
    if ident >= model.idents.len() {
        return None;
    }
    callee_of_ident(model, library, tree, line_index, &model.idents[ident])
}

/// The help for a callee. Where the callee is a function of the file, its one
/// method has its parameters as they are written.
pub open spec fn is_help(help: Option<HelpView>, callee: CalleeView, active: ActiveView) -> bool {
    match callee {
        CalleeView::Library(group) => help == help_for(
            group.name@,
            group.methods@,
            group.doc.deep_view(),
            active,
        ),
        CalleeView::Local { name, params, keywords } => exists|method: Method| #[trigger]
            is_local_method(method, params, keywords) && help == help_for(
                name,
                seq![method],
                None,
                active,
            ),
    }
}

/// Whether a method has parameters as they are written, and nothing else.
pub open spec fn is_local_method(
    method: Method,
    params: Seq<Seq<char>>,
    keywords: Seq<Seq<char>>,
) -> bool {
    &&& are_plain_params(method.params@, params)
    &&& are_plain_params(method.keyword_params@, keywords)
    &&& method.return_type is None
}

/// The help at an offset: that for the innermost call around it, where what it
/// calls is known.
pub open spec fn is_help_at(
    help: Option<HelpView>,
    s: Seq<char>,
    t: Seq<Element>,
    model: SemanticModel,
    library: Library,
    offset: u32,
) -> bool {
    match enclosing(t, offset) {
        Some(call) => {
            let active = active_at(s, t, arg_list_of(t, call as int)->0, offset);
            match callee_at(s, t, model, library, call as int) {
                Some(callee) => is_help(help, callee, active),
                None => help is None,
            }
        },
        None => help is None,
    }
}

/// The help at `offset`.
pub fn signature_help_for(
    model: &SemanticModel,
    library: &Library,
    tree: &SyntaxTree,
    line_index: &LineIndex,
    offset: u32,
) -> (r: Option<SignatureHelp>)
    requires
        model.wf(),
        tree.wf(),
        line_index.wf(),
    ensures
        is_help_at(r.deep_view(), line_index@, tree@, *model, *library, offset),
{
    let call = match enclosing_call(tree, offset) {
        Some(call) => call,
        None => {
            return None;
        },
    };
    let list = match arg_list(tree, call) {
        Some(list) => list,
        None => {
            return None;
        },
    };
    let active = active_argument(tree, list, line_index, offset);
    match resolve_callee(model, library, tree, line_index, call) {
        Some(Callee::Library(group)) => {
            let mut methods: Vec<&Method> = Vec::new();
            let mut i: usize = 0;
            while i < group.methods.len()
                invariant
                    i <= group.methods.len(),
                    methods.len() == i,
                    forall|k: int| 0 <= k < i ==> *(#[trigger] methods@[k]) == group.methods@[k],
                decreases group.methods.len() - i,
            {
                methods.push(&group.methods[i]);
                i = i + 1;
            }
            proof {
                assert(Seq::new(methods.len() as nat, |i: int| *methods@[i])
                    =~= group.methods@);
            }
            build_signature_help(group.name.as_str(), &methods, &group.doc, &active)
        },
        Some(Callee::Local { name, method }) => {
            let methods: Vec<&Method> = vec![&method];
            let doc: Option<String> = None;
            proof {
                assert(Seq::new(methods.len() as nat, |i: int| *methods@[i]) =~= seq![method]);
                let view = callee_at(line_index@, tree@, *model, *library, call as int)->0;
                assert(is_local_method(method, view->params, view->keywords));
            }
            build_signature_help(name.as_str(), &methods, &doc, &active)
        },
        None => None,
    }
}

/// The help at `position` of `text`.
pub fn compute_signature_help(
    text: &str,
    position: Position,
    tree: &SyntaxTree,
    model: &SemanticModel,
    library: &Library,
    encoding: PositionEncoding,
) -> (r: Option<SignatureHelp>)
    requires
        model.wf(),
        tree.wf(),
        crate::text::fits(text@),
    ensures
        is_help_at(
            r.deep_view(),
            text@,
            tree@,
            *model,
            *library,
            offset_at(text@, position, encoding) as u32,
        ),
{
    let line_index = LineIndex::new(text);
    proof {
        lemma_offset_bounded(text@, position, encoding);
    }
    let offset = line_index.position_to_byte(position, encoding) as u32;
    signature_help_for(model, library, tree, &line_index, offset)
}

/// A positional argument is at the parameter of its place, all from the first that
/// takes further arguments on are at that one, and none is behind the last; a keyword
/// is at the first keyword parameter of its name, counted behind the positional ones,
/// and one that is not known, or not yet named, at the first keyword parameter.
pub proof fn law_arguments_are_at_their_parameters(
    method: Method,
    i: nat,
    v: int,
    name: Option<Seq<char>>,
)
    requires
        method.params.len() + method.keyword_params.len() <= u32::MAX,
    ensures
        ({
            let params = method.params@;
            let keywords = method.keyword_params@;
            let at = parameter_at(method, ActiveView::Positional(i));
            let keyword = parameter_at(method, ActiveView::Keyword(name));
            let plain = |n: int|
                forall|k: int| 0 <= k < n && k < params.len() ==> !(#[trigger] params[k]).is_vararg;
            &&& i < params.len() && plain(i as int) ==> at == Some(i as u32)
            &&& i >= params.len() && plain(i as int) ==> at is None
            &&& 0 <= v < params.len() && v <= i && params[v].is_vararg && plain(v) ==> at == Some(
                v as u32,
            )
            &&& 0 <= v < keywords.len() && keywords[v].name is Some && name == Some(
                keywords[v].name->0@,
            ) && (forall|k: int|
                0 <= k < v ==> (#[trigger] keywords[k]).name is None || keywords[k].name->0@
                    != name->0) ==> keyword == Some((params.len() + v) as u32)
            &&& keywords.len() > 0 && (name is None || forall|k: int|
                0 <= k < keywords.len() ==> (#[trigger] keywords[k]).name is None
                    || keywords[k].name->0@ != name->0) ==> keyword == Some(params.len() as u32)
            &&& keywords.len() == 0 ==> keyword is None
        }),
{
    let params = method.params@;
    let keywords = method.keyword_params@;
    lemma_first_index(params, is_vararg());
    let vararg = first_index(params, is_vararg());
    if vararg < params.len() {
        assert(params[vararg].is_vararg);
    }
    if 0 <= v < params.len() && params[v].is_vararg {
        assert(is_vararg()(params[v]));
    }
    if name is Some {
        let named = is_param_named(name->0);
        lemma_first_index(keywords, named);
        let at = first_index(keywords, named);
        if at < keywords.len() {
            assert(named(keywords[at]));
        }
        if 0 <= v < keywords.len() && keywords[v].name is Some && name == Some(
            keywords[v].name->0@,
        ) {
            assert(named(keywords[v]));
        }
    }
}

/// Each of the first ten methods of a function has a signature, in order: its label
/// shows the method, and it has the docstring of the function and the parameter under
/// the cursor. The first whose parameters reach the argument is the active one, or the
/// first of all where none does.
pub proof fn law_help_shows_the_methods(
    name: Seq<char>,
    methods: Seq<Method>,
    doc: Option<Seq<char>>,
    active: ActiveView,
    i: int,
)
    requires
        methods.len() > 0,
    ensures
        match help_for(name, methods, doc, active) {
            None => false,
            Some(help) => {
                let n = help.signatures.len();
                let reaches = |k: int|
                    match active {
                        ActiveView::Positional(at) => at < methods[k].params.len() || exists|p: int|
                            0 <= p < methods[k].params.len()
                                && (#[trigger] methods[k].params@[p]).is_vararg,
                        ActiveView::Keyword(_) => methods[k].keyword_params.len() > 0,
                    };
                &&& n == (if methods.len() < 10 {
                    methods.len()
                } else {
                    10
                })
                &&& 0 <= i < n ==> help.signatures[i].label == name + method_text(methods[i])
                    && help.signatures[i].documentation == doc
                    && help.signatures[i].active_parameter == parameter_at(methods[i], active)
                    && help.signatures[i].parameters == label_spans(name, methods[i])
                &&& 0 <= i < n && reaches(i) && (forall|k: int|
                    0 <= k < i ==> !(#[trigger] reaches(k))) ==> help.active_signature == i
                    && help.active_parameter == parameter_at(methods[i], active)
                &&& (forall|k: int| 0 <= k < n ==> !(#[trigger] reaches(k)))
                    ==> help.active_signature == 0 && help.active_parameter == parameter_at(
                    methods[0],
                    active,
                )
            },
        },
{
    let shown = if methods.len() <= MAX_METHODS {
        methods
    } else {
        methods.take(MAX_METHODS as int)
    };
    let reaches = |k: int|
        match active {
            ActiveView::Positional(at) => at < methods[k].params.len() || exists|p: int|
                0 <= p < methods[k].params.len() && (#[trigger] methods[k].params@[p]).is_vararg,
            ActiveView::Keyword(_) => methods[k].keyword_params.len() > 0,
        };
    let taker = is_taker(active);
    assert forall|k: int| 0 <= k < shown.len() implies #[trigger] reaches(k) == taker(shown[k]) by {
        assert(shown[k] == methods[k]);
        let params = methods[k].params@;
        lemma_first_index(params, is_vararg());
        let v = first_index(params, is_vararg());
        if v < params.len() {
            assert(params[v].is_vararg);
        }
        if exists|p: int| 0 <= p < params.len() && (#[trigger] params[p]).is_vararg {
            let p = choose|p: int| 0 <= p < params.len() && (#[trigger] params[p]).is_vararg;
            assert(is_vararg()(params[p]));
        }
    }
    lemma_first_index(shown, taker);
    let first = first_index(shown, taker);
    if first < shown.len() {
        assert(reaches(first));
    }
    if 0 <= i < shown.len() && reaches(i) {
        assert(taker(shown[i]));
        if first < i {
            assert(reaches(first));
        }
    }
}

/// The arguments that end before an offset are the commas that stand before it,
/// directly in the list; whether the keywords have begun is whether a semicolon, or the
/// section that it opens, stands before it. Here what is in the list is in order.
pub proof fn law_commas_part_arguments(t: Seq<Element>, list: int, i: int, offset: u32)
    requires
        0 <= list < i,
        t[list].end <= t.len(),
        forall|a: int, b: int|
            list < a < b < t[list].end && (#[trigger] t[a]).parent == list && (
            #[trigger] t[b]).parent == list ==> t[a].range.start <= t[b].range.start,
    ensures
        ({
            let (commas, keywords) = arguments_before(t, list, i, offset);
            &&& commas == vstd::set_lib::set_int_range(i, t[list].end as int).filter(
                |k: int|
                    t[k].parent == list && t[k].kind == SyntaxKind::COMMA && t[k].range.start
                        < offset,
            ).len()
            &&& keywords <==> exists|k: int|
                i <= k < t[list].end && (#[trigger] t[k]).parent == list && t[k].range.start
                    < offset && (t[k].kind == SyntaxKind::PARAMETERS || t[k].kind
                    == SyntaxKind::SEMICOLON)
        }),
    decreases t[list].end - i,
{
    let end = t[list].end as int;
    let counted = |k: int|
        t[k].parent == list && t[k].kind == SyntaxKind::COMMA && t[k].range.start < offset;
    let all = vstd::set_lib::set_int_range(i, end);
    let found = all.filter(counted);
    if i < end {
        vstd::set_lib::lemma_int_range(i, end);
    }
    if i >= end {
        assert(found =~= Set::<int>::empty());
    } else if t[i].parent == list && t[i].range.start >= offset {
        assert forall|k: int| !found.contains(k) by {
            if i < k < end && t[k].parent == list {
                assert(t[i].range.start <= t[k].range.start);
            }
        }
        assert(found =~= Set::<int>::empty());
        if exists|k: int|
            i <= k < end && (#[trigger] t[k]).parent == list && t[k].range.start < offset && (
            t[k].kind == SyntaxKind::PARAMETERS || t[k].kind == SyntaxKind::SEMICOLON) {
            let k = choose|k: int|
                i <= k < end && (#[trigger] t[k]).parent == list && t[k].range.start < offset && (
                t[k].kind == SyntaxKind::PARAMETERS || t[k].kind == SyntaxKind::SEMICOLON);
            assert(k == i || t[i].range.start <= t[k].range.start);
            assert(false);
        }
    } else {
        law_commas_part_arguments(t, list, i + 1, offset);
        let rest = vstd::set_lib::set_int_range(i + 1, end);
        vstd::set_lib::lemma_int_range(i + 1, end);
        let later = rest.filter(counted);
        vstd::set_lib::lemma_len_subset(later, rest);
        if counted(i) {
            assert(found =~= later.insert(i));
        } else {
            assert(found =~= later);
        }
    }
}

/// An offset among the keywords, or in a keyword argument, is at the keyword that is
/// named there; any other is at the argument that as many commas stand before.
pub proof fn law_the_active_argument_is_keyword_or_place(
    s: Seq<char>,
    t: Seq<Element>,
    list: int,
    offset: u32,
)
    ensures
        ({
            let (commas, keywords) = arguments_before(t, list, list + 1, offset);
            let keyword = keyword_at(s, t, list, offset);
            let active = active_at(s, t, list, offset);
            &&& keyword is Some ==> active == ActiveView::Keyword(keyword)
            &&& keyword is None && keywords ==> active == ActiveView::Keyword(None)
            &&& keyword is None && !keywords ==> active == ActiveView::Positional(commas)
        }),
{
}

/// The keyword under the cursor is the name of the first keyword argument that spans
/// it.
pub proof fn law_keywords_are_named_by_their_argument(
    s: Seq<char>,
    t: Seq<Element>,
    list: int,
    arg: int,
    name: int,
    offset: u32,
)
    requires
        0 <= list < arg < t[list].end <= t.len(),
        !t[arg].is_token && t[arg].kind == SyntaxKind::KEYWORD_ARG,
        t[arg].range.start <= offset && offset <= t[arg].range.end,
        forall|k: int|
            list <= k < arg ==> (#[trigger] t[k]).is_token || t[k].kind != SyntaxKind::KEYWORD_ARG
                || offset < t[k].range.start || t[k].range.end < offset,
        first_child(t, arg) == Some(name),
        t[name].kind == SyntaxKind::NAME,
    ensures
        keyword_at(s, t, list, offset) == node_text(s, t, name),
{
    lemma_first_keyword(t, list, list, arg, offset);
}

proof fn lemma_first_keyword(t: Seq<Element>, list: int, i: int, arg: int, offset: u32)
    requires
        0 <= list <= i <= arg < t[list].end <= t.len(),
        !t[arg].is_token && t[arg].kind == SyntaxKind::KEYWORD_ARG,
        t[arg].range.start <= offset && offset <= t[arg].range.end,
        forall|k: int|
            list <= k < arg ==> (#[trigger] t[k]).is_token || t[k].kind != SyntaxKind::KEYWORD_ARG
                || offset < t[k].range.start || t[k].range.end < offset,
    ensures
        keyword_arg_from(t, list, i, offset) == Some(arg),
    decreases arg - i,
{
    if i < arg {
        lemma_first_keyword(t, list, i + 1, arg, offset);
    }
}

/// The list of arguments of a call is the first that is directly under it.
pub proof fn law_arguments_are_in_the_first_list(t: Seq<Element>, call: int, list: int)
    requires
        0 <= call < list < t[call].end <= t.len(),
        t[list].parent == call && !t[list].is_token && t[list].kind == SyntaxKind::ARG_LIST,
        forall|k: int|
            call < k < list ==> (#[trigger] t[k]).parent != call || t[k].is_token || t[k].kind
                != SyntaxKind::ARG_LIST,
    ensures
        arg_list_of(t, call) == Some(list),
{
    lemma_first_list(t, call, call + 1, list);
}

proof fn lemma_first_list(t: Seq<Element>, call: int, i: int, list: int)
    requires
        0 <= call < i <= list < t[call].end <= t.len(),
        t[list].parent == call && !t[list].is_token && t[list].kind == SyntaxKind::ARG_LIST,
        forall|k: int|
            call < k < list ==> (#[trigger] t[k]).parent != call || t[k].is_token || t[k].kind
                != SyntaxKind::ARG_LIST,
    ensures
        arg_list_from(t, call, i) == Some(list),
    decreases list - i,
{
    if i < list {
        lemma_first_list(t, call, i + 1, list);
    }
}

/// Help is given for the innermost call around the cursor: of the nodes around the
/// token to its left, the first that is a call whose list of arguments begins before
/// the cursor and does not end before it.
pub proof fn law_help_is_for_the_innermost_call(t: Seq<Element>, token: usize, offset: u32, i: int)
    requires
        tokens_at(t, offset) == TokenAtOffset::Single(token) || exists|right: usize| #[trigger]
            tokens_at(t, offset) == TokenAtOffset::Between(token, right),
    ensures
        ({
            let around = ancestors(t, t[token as int].parent);
            let called = |k: int|
                t[around[k] as int].kind == SyntaxKind::CALL_EXPR && match arg_list_of(
                    t,
                    around[k] as int,
                ) {
                    Some(list) => t[list].range.start < offset && offset <= t[list].range.end,
                    None => false,
                };
            &&& 0 <= i < around.len() && called(i) && (forall|k: int|
                0 <= k < i ==> !#[trigger] called(k)) ==> enclosing(t, offset) == Some(around[i])
            &&& (forall|k: int| 0 <= k < around.len() ==> !#[trigger] called(k)) ==> enclosing(
                t,
                offset,
            ) is None
        }),
{
    let around = ancestors(t, t[token as int].parent);
    let called = |k: int|
        t[around[k] as int].kind == SyntaxKind::CALL_EXPR && match arg_list_of(
            t,
            around[k] as int,
        ) {
            Some(list) => t[list].range.start < offset && offset <= t[list].range.end,
            None => false,
        };
    let f = call_around(t, offset);
    assert forall|k: int| 0 <= k < around.len() implies #[trigger] called(k) == (f(
        around[k],
    ) is Some) by {}
    if forall|k: int| 0 <= k < around.len() ==> !#[trigger] called(k) {
        assert forall|k: int| 0 <= k < around.len() implies f(#[trigger] around[k]) is None by {
            assert(!called(k));
        }
    }
    if 0 <= i < around.len() && called(i) && (forall|k: int| 0 <= k < i ==> !#[trigger] called(k)) {
        assert forall|k: int| 0 <= k < i implies f(#[trigger] around[k]) is None by {
            assert(!called(k));
        }
        assert(f(around[i]) is Some);
    }
    law_first_found_is_first(around, f, i);
}

/// Each argument that stands directly under a node gives its text, and nothing else
/// gives one.
pub proof fn law_parameters_are_the_arguments(
    s: Seq<char>,
    t: Seq<Element>,
    node: int,
    upto: int,
    k: int,
)
    requires
        0 <= node < upto,
    ensures
        node < k < upto && t[k].parent == node && !t[k].is_token && (t[k].kind == SyntaxKind::ARG
            || t[k].kind == SyntaxKind::KEYWORD_ARG) ==> arg_texts(s, t, node, upto).contains(
            source_param(s, t, k),
        ),
        0 <= k < arg_texts(s, t, node, upto).len() ==> exists|j: int|
            node < j < upto && (#[trigger] t[j]).parent == node && !t[j].is_token && (t[j].kind
                == SyntaxKind::ARG || t[j].kind == SyntaxKind::KEYWORD_ARG) && arg_texts(
                s,
                t,
                node,
                upto,
            )[k] == source_param(s, t, j),
    decreases upto,
{
    if upto > node + 1 {
        law_parameters_are_the_arguments(s, t, node, upto - 1, k);
        let before = arg_texts(s, t, node, upto - 1);
        let after = arg_texts(s, t, node, upto);
        if node < k < upto && t[k].parent == node && is_arg(t[k]) {
            if k == upto - 1 {
                assert(after[before.len() as int] == source_param(s, t, k));
            } else {
                let j = choose|j: int|
                    0 <= j < before.len() && before[j] == source_param(s, t, k);
                assert(after[j] == source_param(s, t, k));
            }
        }
        if 0 <= k < after.len() {
            if k < before.len() {
                assert(after[k] == before[k]);
            } else {
                assert(t[upto - 1].parent == node);
            }
        }
    }
}

/// What a section of keywords in a list holds is among the keyword parameters, whole
/// and in order.
pub proof fn law_keyword_parameters_are_in_their_sections(
    s: Seq<char>,
    t: Seq<Element>,
    list: int,
    upto: int,
    section: int,
    k: int,
)
    requires
        0 <= list < section < upto,
        t[section].parent == list && !t[section].is_token && t[section].kind
            == SyntaxKind::PARAMETERS,
        0 <= k < arg_texts(s, t, section, t[section].end as int).len(),
    ensures
        keyword_texts(s, t, list, upto).contains(
            arg_texts(s, t, section, t[section].end as int)[k],
        ),
    decreases upto,
{
    let before = keyword_texts(s, t, list, upto - 1);
    let after = keyword_texts(s, t, list, upto);
    let texts = arg_texts(s, t, section, t[section].end as int);
    if section == upto - 1 {
        assert(after[before.len() + k] == texts[k]);
    } else {
        law_keyword_parameters_are_in_their_sections(s, t, list, upto - 1, section, k);
        let j = choose|j: int| 0 <= j < before.len() && before[j] == texts[k];
        assert(after[j] == texts[k]);
    }
}

/// A function that is called by a path is the first of its name in the module to which
/// the path leads from its package; one that is brought in by its name alone is the
/// first in the root of the package.
pub proof fn law_called_functions_are_found_by_name(
    library: Library,
    path: Seq<Seq<char>>,
    s: Seq<char>,
    t: Seq<Element>,
    model: SemanticModel,
    ident: Ident,
    i: int,
)
    ensures
        path.len() >= 2 && package_of(library, path[0]) is Some ==> match submodule(
            package_of(library, path[0])->0.root,
            path.subrange(1, path.len() - 1),
        ) {
            Some(module) => {
                &&& first_named(module.functions@, path[path.len() - 1], i) ==> qualified_callee(
                    library,
                    path,
                ) == Some(CalleeView::Library(module.functions@[i]))
                &&& nothing_named(module.functions@, path[path.len() - 1]) ==> qualified_callee(
                    library,
                    path,
                ) is None
            },
            None => qualified_callee(library, path) is None,
        },
        ident.binding is None ==> match ident.resolution {
            Resolution::System { module, name } | Resolution::Using { module, name } => {
                let package = package_of(library, module@);
                &&& package is None ==> named_callee(s, t, model, library, ident) is None
                &&& package is Some && first_named(package->0.root.functions@, name@, i)
                    ==> named_callee(s, t, model, library, ident) == Some(
                    CalleeView::Library(package->0.root.functions@[i]),
                )
                &&& package is Some && nothing_named(package->0.root.functions@, name@)
                    ==> named_callee(s, t, model, library, ident) is None
            },
            Resolution::Binding(id) => {
                let binding = model.bindings@[id as int];
                &&& binding.kind == BindingKind::Function ==> named_callee(
                    s,
                    t,
                    model,
                    library,
                    ident,
                ) == local_at(s, t, binding.def_range.start, binding.name@)
                &&& binding.kind != BindingKind::Function ==> named_callee(
                    s,
                    t,
                    model,
                    library,
                    ident,
                ) is None
            },
            _ => named_callee(s, t, model, library, ident) is None,
        },
        ident.binding is Some && model.bindings@[ident.binding->0 as int].kind
            == BindingKind::Function ==> named_callee(s, t, model, library, ident) == local_at(
            s,
            t,
            model.bindings@[ident.binding->0 as int].def_range.start,
            model.bindings@[ident.binding->0 as int].name@,
        ),
{
    if path.len() >= 2 && package_of(library, path[0]) is Some {
        assert(path.drop_last().skip(1) =~= path.subrange(1, path.len() - 1));
        match submodule(package_of(library, path[0])->0.root, path.drop_last().skip(1)) {
            Some(module) => {
                lemma_callee_in(module, path.last(), i);
            },
            None => {},
        }
    }
    match ident.resolution {
        Resolution::System { module, name } | Resolution::Using { module, name } => {
            match package_of(library, module@) {
                Some(package) => lemma_callee_in(package.root, name@, i),
                None => {},
            }
        },
        _ => {},
    }
}

proof fn lemma_callee_in(module: ModuleIndex, name: Seq<char>, i: int)
    ensures
        first_named(module.functions@, name, i) ==> callee_in(module, name) == Some(
            CalleeView::Library(module.functions@[i]),
        ),
        nothing_named(module.functions@, name) ==> callee_in(module, name) is None,
{
    if first_named(module.functions@, name, i) {
        lemma_first_named(module.functions@, name, i);
    }
    if nothing_named(module.functions@, name) {
        lemma_nothing_named(module.functions@, name);
    }
}

/// What a call calls is its first child: a qualified name that has its range, or a name
/// that an occurrence spans.
pub proof fn law_a_call_calls_its_first_child(
    s: Seq<char>,
    t: Seq<Element>,
    model: SemanticModel,
    library: Library,
    call: int,
    callee: int,
    k: int,
)
    requires
        first_child(t, call) == Some(callee),
    ensures
        ({
            let reads = model.qualified_reads@;
            let idents = model.idents@;
            let at = t[callee].range.start;
            let no_read = forall|i: int|
                0 <= i < reads.len() ==> (#[trigger] reads[i]).range != t[callee].range;
            &&& 0 <= k < reads.len() && reads[k].range == t[callee].range && (forall|i: int|
                0 <= i < k ==> (#[trigger] reads[i]).range != t[callee].range) ==> callee_at(
                s,
                t,
                model,
                library,
                call,
            ) == qualified_callee(library, reads[k].path.deep_view())
            &&& no_read && t[callee].kind == SyntaxKind::NAME && 0 <= k < idents.len() && at_name(
                idents[k].range,
                at,
            ) && (forall|i: int| 0 <= i < k ==> !at_name((#[trigger] idents[i]).range, at))
                ==> callee_at(s, t, model, library, call) == named_callee(
                s,
                t,
                model,
                library,
                idents[k],
            )
            &&& no_read && t[callee].kind != SyntaxKind::NAME ==> callee_at(
                s,
                t,
                model,
                library,
                call,
            ) is None
        }),
{
    let reads = model.qualified_reads@;
    let idents = model.idents@;
    let range = t[callee].range;
    lemma_first_index(reads, read_in(range));
    lemma_first_index(idents, ident_spans(range.start));
    let r = first_index(reads, read_in(range));
    let i = first_index(idents, ident_spans(range.start));
    if r < reads.len() {
        assert(reads[r].range == range);
    }
    if i < idents.len() {
        assert(at_name(idents[i].range, range.start));
    }
    if 0 <= k < reads.len() && reads[k].range == range {
        assert(read_in(range)(reads[k]));
    }
    if 0 <= k < idents.len() && at_name(idents[k].range, range.start) {
        assert(ident_spans(range.start)(idents[k]));
    }
}

/// A function of the file is shown by the first call around its name, which is its
/// signature: under its name, with the arguments directly in the list as parameters and
/// those behind the semicolon as keywords.
pub proof fn law_local_functions_show_their_signature(
    s: Seq<char>,
    t: Seq<Element>,
    start: u32,
    name: Seq<char>,
    token: usize,
    i: int,
    list: int,
)
    requires
        tokens_at(t, start) == TokenAtOffset::Single(token) || exists|left: usize| #[trigger]
            tokens_at(t, start) == TokenAtOffset::Between(left, token),
        0 <= i < ancestors(t, t[token as int].parent).len(),
        t[ancestors(t, t[token as int].parent)[i] as int].kind == SyntaxKind::CALL_EXPR,
        forall|k: int|
            0 <= k < i ==> t[#[trigger] ancestors(t, t[token as int].parent)[k] as int].kind
                != SyntaxKind::CALL_EXPR,
        arg_list_of(t, ancestors(t, t[token as int].parent)[i] as int) == Some(list),
    ensures
        local_at(s, t, start, name) == Some(
            CalleeView::Local {
                name,
                params: arg_texts(s, t, list, t[list].end as int),
                keywords: keyword_texts(s, t, list, t[list].end as int),
            },
        ),
{
    let around = ancestors(t, t[token as int].parent);
    let f = is_call(t);
    assert forall|k: int| 0 <= k < i implies f(#[trigger] around[k]) is None by {}
    law_first_found_is_first(around, f, i);
}

} // verus!
