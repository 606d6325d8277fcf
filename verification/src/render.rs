//! Signatures and kinds as short texts.

use vstd::prelude::*;

use crate::index::{FunctionGroup, Method, Param, TypeDef, TypeExpr, TypeKind};
use crate::semantic::BindingKind;
use crate::strings::{cat, join_with, law_parts_tell_apart, lemma_middle_differs, separated};

verus! {

/// A type as it is shown.
pub open spec fn type_text(ty: TypeExpr) -> Seq<char>
    decreases ty, 1int,
{
    match ty {
        TypeExpr::Name { path } => separated(path.deep_view(), "."@),
        TypeExpr::Applied { base, args } => type_text(*base) + "{"@ + separated(
            type_texts(args, args.len() as int),
            ", "@,
        ) + "}"@,
        TypeExpr::Union { members } => "Union{"@ + separated(
            type_texts(members, members.len() as int),
            ", "@,
        ) + "}"@,
        TypeExpr::Tuple { elems } => "Tuple{"@ + separated(
            type_texts(elems, elems.len() as int),
            ", "@,
        ) + "}"@,
        TypeExpr::TypeVar { name, lower, upper } => match (lower, upper) {
            (Some(l), Some(u)) => type_text(*l) + " <: "@ + name@ + " <: "@ + type_text(*u),
            (None, Some(u)) => name@ + " <: "@ + type_text(*u),
            (Some(l), None) => name@ + " >: "@ + type_text(*l),
            (None, None) => name@,
        },
        TypeExpr::Raw { text } => text@,
    }
}

/// The first `n` of a number of types as they are shown.
pub open spec fn type_texts(types: Vec<TypeExpr>, n: int) -> Seq<Seq<char>>
    decreases types, n,
{
    if n <= 0 || n > types.len() {
        Seq::empty()
    } else {
        type_texts(types, n - 1).push(type_text(types[n - 1]))
    }
}

/// A type as it is shown.
pub fn render_type(ty: &TypeExpr) -> (r: String)
    ensures
        r@ == type_text(*ty),
    decreases *ty, 1int,
{
    match ty {
        TypeExpr::Name { path } => join_with(path, "."),
        TypeExpr::Applied { base, args } => {
            let mut out = render_type(base);
            let inner = render_types(args);
            out.append("{");
            out.append(inner.as_str());
            out.append("}");
            out
        },
        TypeExpr::Union { members } => {
            let inner = render_types(members);
            let mut out = cat("Union{", inner.as_str());
            out.append("}");
            out
        },
        TypeExpr::Tuple { elems } => {
            let inner = render_types(elems);
            let mut out = cat("Tuple{", inner.as_str());
            out.append("}");
            out
        },
        TypeExpr::TypeVar { name, lower, upper } => match (lower, upper) {
            (Some(l), Some(u)) => {
                let mut out = render_type(l);
                let above = render_type(u);
                out.append(" <: ");
                out.append(name.as_str());
                out.append(" <: ");
                out.append(above.as_str());
                out
            },
            (None, Some(u)) => {
                let mut out = cat(name.as_str(), " <: ");
                let above = render_type(u);
                out.append(above.as_str());
                out
            },
            (Some(l), None) => {
                let mut out = cat(name.as_str(), " >: ");
                let below = render_type(l);
                out.append(below.as_str());
                out
            },
            (None, None) => name.clone(),
        },
        TypeExpr::Raw { text } => text.clone(),
    }
}

/// A number of types as they are shown, with commas between.
pub fn render_types(types: &Vec<TypeExpr>) -> (r: String)
    ensures
        r@ == separated(type_texts(*types, types.len() as int), ", "@),
    decreases *types, 0int,
{
    let mut parts: Vec<String> = Vec::new();
    let mut i: usize = 0;
    proof {
        assert(parts.deep_view() =~= Seq::<Seq<char>>::empty());
    }
    while i < types.len()
        invariant
            i <= types.len(),
            parts.deep_view() == type_texts(*types, i as int),
        decreases types.len() - i,
    {
        let ghost before = parts.deep_view();
        let text = render_type(&types[i]);
        parts.push(text);
        i = i + 1;
        proof {
            assert(parts.deep_view() =~= before.push(type_text(types[i - 1])));
        }
    }
    join_with(&parts, ", ")
}

/// A parameter as it is shown.
pub open spec fn param_text(param: Param) -> Seq<char> {
    (match param.name {
        Some(name) => name@,
        None => Seq::empty(),
    }) + (match param.type_annotation {
        Some(ty) => "::"@ + type_text(ty),
        None => Seq::empty(),
    }) + (if param.is_vararg {
        "..."@
    } else {
        Seq::empty()
    }) + (match param.default {
        Some(default) => " = "@ + default@,
        None => Seq::empty(),
    })
}

/// A parameter as it is shown.
pub fn render_param(param: &Param) -> (r: String)
    ensures
        r@ == param_text(*param),
{
    let mut out = match &param.name {
        Some(name) => name.clone(),
        None => String::new(),
    };
    if let Some(ty) = &param.type_annotation {
        let shown = render_type(ty);
        out.append("::");
        out.append(shown.as_str());
    }
    if param.is_vararg {
        out.append("...");
    }
    if let Some(default) = &param.default {
        out.append(" = ");
        out.append(default.as_str());
    }
    proof {
        assert(out@ =~= param_text(*param));
    }
    out
}

/// Parameters as they are shown, with commas between.
pub open spec fn params_text(params: Seq<Param>) -> Seq<char> {
    separated(Seq::new(params.len(), |i: int| param_text(params[i])), ", "@)
}

/// Parameters as they are shown, with commas between.
pub fn render_params(params: &Vec<Param>) -> (r: String)
    ensures
        r@ == params_text(params@),
{
    let mut parts: Vec<String> = Vec::new();
    let mut i: usize = 0;
    while i < params.len()
        invariant
            i <= params.len(),
            parts.len() == i,
            forall|k: int| 0 <= k < i ==> #[trigger] parts@[k]@ == param_text(params@[k]),
        decreases params.len() - i,
    {
        parts.push(render_param(&params[i]));
        i = i + 1;
    }
    proof {
        assert(parts.deep_view() =~= Seq::new(
            params@.len(),
            |i: int| param_text(params@[i]),
        ));
    }
    join_with(&parts, ", ")
}

/// The parameters of a method, keywords behind a semicolon, and what it returns.
pub open spec fn method_text(method: Method) -> Seq<char> {
    "("@ + params_text(method.params@) + (if method.keyword_params.len() > 0 {
        "; "@ + params_text(method.keyword_params@)
    } else {
        Seq::empty()
    }) + ")"@ + (match method.return_type {
        Some(ret) => "::"@ + type_text(ret),
        None => Seq::empty(),
    })
}

/// The parameters of a method and what it returns.
pub fn render_method(method: &Method) -> (r: String)
    ensures
        r@ == method_text(*method),
{
    let positional = render_params(&method.params);
    let mut out = cat("(", positional.as_str());
    if method.keyword_params.len() > 0 {
        let keywords = render_params(&method.keyword_params);
        out.append("; ");
        out.append(keywords.as_str());
    }
    out.append(")");
    if let Some(ret) = &method.return_type {
        let shown = render_type(ret);
        out.append("::");
        out.append(shown.as_str());
    }
    proof {
        assert(out@ =~= method_text(*method));
    }
    out
}

/// A function in one line: its first method, or its name where it has none.
pub open spec fn function_line(group: FunctionGroup) -> Seq<char> {
    if group.methods.len() > 0 {
        group.name@ + method_text(group.methods@[0])
    } else {
        group.name@
    }
}

/// A function in one line.
pub fn function_detail(group: &FunctionGroup) -> (r: String)
    ensures
        r@ == function_line(*group),
{
    if group.methods.len() > 0 {
        let signature = render_method(&group.methods[0]);
        cat(group.name.as_str(), signature.as_str())
    } else {
        group.name.clone()
    }
}

/// The words that introduce a type of a kind.
pub open spec fn type_head(kind: TypeKind) -> Seq<char> {
    match kind {
        TypeKind::Struct { mutable } => if mutable {
            "mutable struct"@
        } else {
            "struct"@
        },
        TypeKind::Abstract => "abstract type"@,
        TypeKind::Primitive => "primitive type"@,
    }
}

/// A type definition in one line: its kind, its name and its supertype.
pub open spec fn type_line(def: TypeDef) -> Seq<char> {
    type_head(def.kind) + " "@ + def.name@ + (match def.supertype {
        Some(sup) => " <: "@ + type_text(sup),
        None => Seq::empty(),
    })
}

/// A type definition in one line.
pub fn type_detail(def: &TypeDef) -> (r: String)
    ensures
        r@ == type_line(*def),
{
    let head = match def.kind {
        TypeKind::Struct { mutable } => if mutable {
            "mutable struct"
        } else {
            "struct"
        },
        TypeKind::Abstract => "abstract type",
        TypeKind::Primitive => "primitive type",
    };
    let mut out = cat(head, " ");
    out.append(def.name.as_str());
    if let Some(sup) = &def.supertype {
        let shown = render_type(sup);
        out.append(" <: ");
        out.append(shown.as_str());
    }
    proof {
        assert(out@ =~= type_line(*def));
    }
    out
}

/// The word for what a binding binds.
pub open spec fn kind_label(kind: BindingKind) -> Seq<char> {
    match kind {
        BindingKind::Global => "global"@,
        BindingKind::Local => "local"@,
        BindingKind::Const => "const"@,
        BindingKind::Param => "parameter"@,
        BindingKind::KeywordParam => "keyword"@,
        BindingKind::ForVar => "loop variable"@,
        BindingKind::LetVar => "let binding"@,
        BindingKind::CatchParam => "catch variable"@,
        BindingKind::TypeParam => "type parameter"@,
        BindingKind::Field => "field"@,
        BindingKind::Function => "function"@,
        BindingKind::Macro => "macro"@,
        BindingKind::Type => "type"@,
        BindingKind::Module => "module"@,
        BindingKind::Import => "import"@,
    }
}

/// The word for what a binding binds.
pub fn binding_detail(kind: BindingKind) -> (r: &'static str)
    ensures
        r@ == kind_label(kind),
{
    match kind {
        BindingKind::Global => "global",
        BindingKind::Local => "local",
        BindingKind::Const => "const",
        BindingKind::Param => "parameter",
        BindingKind::KeywordParam => "keyword",
        BindingKind::ForVar => "loop variable",
        BindingKind::LetVar => "let binding",
        BindingKind::CatchParam => "catch variable",
        BindingKind::TypeParam => "type parameter",
        BindingKind::Field => "field",
        BindingKind::Function => "function",
        BindingKind::Macro => "macro",
        BindingKind::Type => "type",
        BindingKind::Module => "module",
        BindingKind::Import => "import",
    }
}

/// The texts of types, one by one.
pub open spec fn each_type(types: Vec<TypeExpr>) -> Seq<Seq<char>> {
    Seq::new(types.len() as nat, |i: int| type_text(types@[i]))
}

proof fn lemma_type_texts(types: Vec<TypeExpr>, n: int)
    requires
        0 <= n <= types.len(),
    ensures
        type_texts(types, n) == each_type(types).take(n),
    decreases n,
{
    if n > 0 {
        lemma_type_texts(types, n - 1);
        assert(types[n - 1] == types@[n - 1]);
        assert(each_type(types).take(n) =~= each_type(types).take(n - 1).push(
            type_text(types@[n - 1]),
        ));
    } else {
        assert(each_type(types).take(0) =~= Seq::<Seq<char>>::empty());
    }
}

/// A type with parameters is shown as its base and, in braces, every one of its
/// arguments with commas between; a union and a tuple are shown likewise.
pub proof fn law_arguments_are_shown(ty: TypeExpr)
    ensures
        match ty {
            TypeExpr::Applied { base, args } => type_text(ty) == type_text(*base) + "{"@ + separated(
                each_type(args),
                ", "@,
            ) + "}"@,
            TypeExpr::Union { members } => type_text(ty) == "Union{"@ + separated(
                each_type(members),
                ", "@,
            ) + "}"@,
            TypeExpr::Tuple { elems } => type_text(ty) == "Tuple{"@ + separated(
                each_type(elems),
                ", "@,
            ) + "}"@,
            _ => true,
        },
{
    match ty {
        TypeExpr::Applied { args, .. } => {
            lemma_type_texts(args, args.len() as int);
            assert(each_type(args).take(args.len() as int) =~= each_type(args));
        },
        TypeExpr::Union { members } => {
            lemma_type_texts(members, members.len() as int);
            assert(each_type(members).take(members.len() as int) =~= each_type(members));
        },
        TypeExpr::Tuple { elems } => {
            lemma_type_texts(elems, elems.len() as int);
            assert(each_type(elems).take(elems.len() as int) =~= each_type(elems));
        },
        _ => {},
    }
}

/// The types that a type is made of: the arguments of one with parameters, the
/// members of a union, the elements of a tuple.
pub open spec fn inner_types(ty: TypeExpr) -> Seq<TypeExpr> {
    match ty {
        TypeExpr::Applied { args, .. } => args@,
        TypeExpr::Union { members } => members@,
        TypeExpr::Tuple { elems } => elems@,
        _ => Seq::empty(),
    }
}

/// Whether two types are made alike, but for what they are made of.
pub open spec fn made_alike(a: TypeExpr, b: TypeExpr) -> bool {
    match (a, b) {
        (TypeExpr::Applied { base: x, .. }, TypeExpr::Applied { base: y, .. }) => *x == *y,
        (TypeExpr::Union { .. }, TypeExpr::Union { .. }) => true,
        (TypeExpr::Tuple { .. }, TypeExpr::Tuple { .. }) => true,
        _ => false,
    }
}

/// Two types that are made alike and differ in one of the types they are made of,
/// which are shown differently, are shown differently.
pub proof fn law_types_tell_arguments_apart(a: TypeExpr, b: TypeExpr, k: int)
    requires
        made_alike(a, b),
        inner_types(a).len() == inner_types(b).len(),
        0 <= k < inner_types(a).len(),
        forall|i: int|
            0 <= i < inner_types(a).len() && i != k ==> inner_types(a)[i] == inner_types(b)[i],
        type_text(inner_types(a)[k]) != type_text(inner_types(b)[k]),
    ensures
        type_text(a) != type_text(b),
{
    law_arguments_are_shown(a);
    law_arguments_are_shown(b);
    let x = Seq::new(inner_types(a).len(), |i: int| type_text(inner_types(a)[i]));
    let y = Seq::new(inner_types(b).len(), |i: int| type_text(inner_types(b)[i]));
    law_parts_tell_apart(x, y, ", "@, k);
    match (a, b) {
        (TypeExpr::Applied { base, args: p }, TypeExpr::Applied { args: q, .. }) => {
            assert(each_type(p) =~= x);
            assert(each_type(q) =~= y);
            lemma_middle_differs(
                type_text(*base) + "{"@,
                separated(x, ", "@),
                separated(y, ", "@),
                "}"@,
            );
        },
        (TypeExpr::Union { members: p }, TypeExpr::Union { members: q }) => {
            assert(each_type(p) =~= x);
            assert(each_type(q) =~= y);
            lemma_middle_differs("Union{"@, separated(x, ", "@), separated(y, ", "@), "}"@);
        },
        (TypeExpr::Tuple { elems: p }, TypeExpr::Tuple { elems: q }) => {
            assert(each_type(p) =~= x);
            assert(each_type(q) =~= y);
            lemma_middle_differs("Tuple{"@, separated(x, ", "@), separated(y, ", "@), "}"@);
        },
        _ => {},
    }
}

/// A name is shown with dots between its components, a text as it stands, and a type
/// variable with each bound that it has on the side where it holds.
pub proof fn law_names_and_bounds_are_shown(ty: TypeExpr)
    ensures
        match ty {
            TypeExpr::Name { path } => type_text(ty) == separated(path.deep_view(), "."@),
            TypeExpr::Raw { text } => type_text(ty) == text@,
            TypeExpr::TypeVar { name, lower, upper } => {
                &&& lower is None && upper is None ==> type_text(ty) == name@
                &&& lower is Some && upper is None ==> type_text(ty) == name@ + " >: "@ + type_text(
                    *lower->0,
                )
                &&& upper is Some ==> type_text(ty) == (if lower is Some {
                    type_text(*lower->0) + " <: "@
                } else {
                    Seq::empty()
                }) + name@ + " <: "@ + type_text(*upper->0)
            },
            _ => true,
        },
{
    match ty {
        TypeExpr::TypeVar { name, lower, upper } => {
            if lower is None && upper is Some {
                assert(type_text(ty) =~= Seq::<char>::empty() + name@ + " <: "@ + type_text(
                    *upper->0,
                ));
            }
        },
        _ => {},
    }
}

/// A parameter begins with its name; its type follows behind two colons, then dots
/// where it takes all further arguments, and its default ends it.
pub proof fn law_parameter_shows_all_it_has(param: Param)
    ensures
        ({
            let name = if param.name is Some {
                param.name->0@
            } else {
                Seq::empty()
            };
            let typed = if param.type_annotation is Some {
                name + "::"@ + type_text(param.type_annotation->0)
            } else {
                name
            };
            let dotted = if param.is_vararg {
                typed + "..."@
            } else {
                typed
            };
            param_text(param) == (if param.default is Some {
                dotted + " = "@ + param.default->0@
            } else {
                dotted
            })
        }),
{
    let name = if param.name is Some {
        param.name->0@
    } else {
        Seq::empty()
    };
    let typed = if param.type_annotation is Some {
        name + "::"@ + type_text(param.type_annotation->0)
    } else {
        name
    };
    let dotted = if param.is_vararg {
        typed + "..."@
    } else {
        typed
    };
    if param.default is Some {
        assert(param_text(param) =~= dotted + " = "@ + param.default->0@);
    } else {
        assert(param_text(param) =~= dotted);
    }
}

/// The texts of parameters, one by one.
pub open spec fn each_param(params: Seq<Param>) -> Seq<Seq<char>> {
    Seq::new(params.len(), |i: int| param_text(params[i]))
}

/// A method shows every parameter in brackets, the keywords behind a semicolon where
/// there are any, and behind the bracket the type that it returns where it is known.
pub proof fn law_method_shows_all_it_has(method: Method)
    ensures
        ({
            let open = "("@ + separated(each_param(method.params@), ", "@);
            let all = if method.keyword_params@.len() > 0 {
                open + "; "@ + separated(each_param(method.keyword_params@), ", "@)
            } else {
                open
            };
            method_text(method) == (if method.return_type is Some {
                all + ")::"@ + type_text(method.return_type->0)
            } else {
                all + ")"@
            })
        }),
{
    reveal_strlit(")");
    reveal_strlit("::");
    reveal_strlit(")::");
    assert(")::"@ =~= ")"@ + "::"@);
    let open = "("@ + separated(each_param(method.params@), ", "@);
    let all = if method.keyword_params@.len() > 0 {
        open + "; "@ + separated(each_param(method.keyword_params@), ", "@)
    } else {
        open
    };
    assert(each_param(method.params@) =~= Seq::new(
        method.params@.len(),
        |i: int| param_text(method.params@[i]),
    ));
    if method.return_type is Some {
        assert(method_text(method) =~= all + ")::"@ + type_text(method.return_type->0));
    } else {
        assert(method_text(method) =~= all + ")"@);
    }
}

/// Two methods that differ in one parameter, which is shown differently, are shown
/// differently.
pub proof fn law_methods_tell_parameters_apart(a: Method, b: Method, k: int)
    requires
        a.params.len() == b.params.len(),
        a.keyword_params@ == b.keyword_params@,
        a.return_type == b.return_type,
        0 <= k < a.params.len(),
        forall|i: int| 0 <= i < a.params.len() && i != k ==> a.params@[i] == b.params@[i],
        param_text(a.params@[k]) != param_text(b.params@[k]),
    ensures
        method_text(a) != method_text(b),
{
    let x = separated(each_param(a.params@), ", "@);
    let y = separated(each_param(b.params@), ", "@);
    law_parts_tell_apart(each_param(a.params@), each_param(b.params@), ", "@, k);
    let tail = (if a.keyword_params.len() > 0 {
        "; "@ + params_text(a.keyword_params@)
    } else {
        Seq::empty()
    }) + ")"@ + (match a.return_type {
        Some(ret) => "::"@ + type_text(ret),
        None => Seq::empty(),
    });
    lemma_middle_differs("("@, x, y, tail);
    assert(method_text(a) =~= "("@ + x + tail);
    assert(method_text(b) =~= "("@ + y + tail);
}

/// A function in one line begins with its name, and shows its first method where it
/// has one.
pub proof fn law_function_line_shows_first_method(group: FunctionGroup)
    ensures
        group.methods@.len() == 0 ==> function_line(group) == group.name@,
        group.methods@.len() > 0 ==> function_line(group) == group.name@ + method_text(
            group.methods@[0],
        ),
{
}

/// A type definition in one line shows its name behind the words for its kind, which
/// no other kind has, and its supertype where it has one.
pub proof fn law_type_line_shows_all_it_has(def: TypeDef, other: TypeKind)
    ensures
        def.supertype is None ==> type_line(def) == type_head(def.kind) + " "@ + def.name@,
        def.supertype is Some ==> type_line(def) == type_head(def.kind) + " "@ + def.name@ + " <: "@
            + type_text(def.supertype->0),
        type_head(TypeKind::Struct { mutable: false }) == "struct"@,
        type_head(TypeKind::Struct { mutable: true }) == "mutable "@ + type_head(
            TypeKind::Struct { mutable: false },
        ),
        type_head(TypeKind::Abstract) == "abstract type"@,
        type_head(TypeKind::Primitive) == "primitive type"@,
        def.kind != other ==> type_head(def.kind) != type_head(other),
{
    reveal_strlit("struct");
    reveal_strlit("mutable struct");
    reveal_strlit("mutable ");
    reveal_strlit("abstract type");
    reveal_strlit("primitive type");
    assert("mutable struct"@ =~= "mutable "@ + "struct"@);
    assert("struct"@[0] == 's');
    assert("mutable struct"@[0] == 'm');
    assert("abstract type"@[0] == 'a');
    assert("primitive type"@[0] == 'p');
    if def.supertype is None {
        assert(type_line(def) =~= type_head(def.kind) + " "@ + def.name@);
    } else {
        assert(type_line(def) =~= type_head(def.kind) + " "@ + def.name@ + " <: "@ + type_text(
            def.supertype->0,
        ));
    }
}

/// Each kind of binding has a word of its own.
pub proof fn law_kinds_have_words_of_their_own(a: BindingKind, b: BindingKind)
    ensures
        a != b ==> kind_label(a) != kind_label(b),
        kind_label(BindingKind::Global) == "global"@,
        kind_label(BindingKind::Local) == "local"@,
        kind_label(BindingKind::Const) == "const"@,
        kind_label(BindingKind::Param) == "parameter"@,
        kind_label(BindingKind::KeywordParam) == "keyword"@,
        kind_label(BindingKind::ForVar) == "loop variable"@,
        kind_label(BindingKind::LetVar) == "let binding"@,
        kind_label(BindingKind::CatchParam) == "catch variable"@,
        kind_label(BindingKind::TypeParam) == "type parameter"@,
        kind_label(BindingKind::Field) == "field"@,
        kind_label(BindingKind::Function) == "function"@,
        kind_label(BindingKind::Macro) == "macro"@,
        kind_label(BindingKind::Type) == "type"@,
        kind_label(BindingKind::Module) == "module"@,
        kind_label(BindingKind::Import) == "import"@,
{
    reveal_strlit("global");
    reveal_strlit("local");
    reveal_strlit("const");
    reveal_strlit("parameter");
    reveal_strlit("keyword");
    reveal_strlit("loop variable");
    reveal_strlit("let binding");
    reveal_strlit("catch variable");
    reveal_strlit("type parameter");
    reveal_strlit("field");
    reveal_strlit("function");
    reveal_strlit("macro");
    reveal_strlit("type");
    reveal_strlit("module");
    reveal_strlit("import");
    // Words of one length differ in a letter.
    assert("global"@.len() == 6 && "module"@.len() == 6 && "import"@.len() == 6);
    assert("global"@[0] == 'g' && "module"@[0] == 'm' && "import"@[0] == 'i');
    assert("local"@.len() == 5 && "const"@.len() == 5 && "field"@.len() == 5 && "macro"@.len()
        == 5);
    assert("local"@[0] == 'l' && "const"@[0] == 'c' && "field"@[0] == 'f' && "macro"@[0] == 'm');
    assert("catch variable"@.len() == 14 && "type parameter"@.len() == 14);
    assert("catch variable"@[0] == 'c' && "type parameter"@[0] == 't');
    assert("type"@.len() == 4 && "keyword"@.len() == 7 && "function"@.len() == 8);
    assert("parameter"@.len() == 9 && "let binding"@.len() == 11 && "loop variable"@.len() == 13);
}

} // verus!
