//! Hover: what the name under the cursor stands for, as Markdown.

use vstd::prelude::*;

use crate::documentation::{
    code_at, docs_wf, fence_source, find_code, lemma_code_fits, render, rendered, DocText,
    EmbeddedJulia, EmbeddedView,
};
use crate::folding::SourceMap;
use crate::index::{
    extension_groups, extensions, find_named, first_named, has_name, holds_name,
    lemma_first_named, lemma_nothing_named, name_index, nothing_named, package_of, points_at,
    resolve_submodule, submodule, ConstDef, FunctionGroup, Library, MacroDef, Method,
    ModuleIndex, Named, PackageIndex, TypeDef,
};
use crate::render::{
    binding_detail, kind_label, method_text, params_text, render_method, render_params,
    type_detail, type_line,
};
use crate::resolve::{loaded_module, using_module};
use crate::search::{
    first_found, first_index, lemma_first_found_stays, lemma_first_found_step, lemma_first_index,
    lemma_first_index_is,
};
use crate::semantic::{
    at_name, binding_spans, ident_spans, read_spans, Binding, BindingKind, ModuleLoad, Resolution,
    SemanticModel,
};
use crate::strings::{
    cat, chars_of, decimal, decimal_text, join_with, same_text, separated, trim, trimmed,
};
use crate::text::{
    fits, lemma_offset_bounded, line_around, offset_at, range_at, LineIndex, Position,
    PositionEncoding, Range, TextRange,
};

verus! {

/// How many methods of a function are shown.
pub const MAX_METHODS: usize = 10;

/// What a hover shows, and the range it is about.
#[derive(Debug)]
pub struct Hover {
    pub value: String,
    pub range: Range,
}

/// The line that holds a byte, without the whitespace around it; nothing where
/// the line is blank.
pub open spec fn line_shown(s: Seq<char>, offset: int) -> Option<Seq<char>> {
    let line = trimmed(line_around(s, offset));
    if line.len() == 0 {
        None
    } else {
        Some(line)
    }
}

/// The line of `text` that holds byte `offset`, without the whitespace around it.
pub fn definition_line(text: &str, offset: usize) -> (r: Option<String>)
    requires
        fits(text@),
    ensures
        r.deep_view() == line_shown(text@, offset as int),
{
    let line_index = LineIndex::new(text);
    let line = line_index.line_text(offset);
    let line = trim(line.as_str());
    if line.as_str().is_empty() {
        None
    } else {
        Some(line)
    }
}

/// A text with a docstring below a rule.
pub open spec fn with_documentation(out: Seq<char>, doc: Option<Seq<char>>) -> Seq<char> {
    match doc {
        Some(doc) => out + "\n\n---\n\n"@ + doc,
        None => out,
    }
}

/// Adds a docstring below a rule.
pub fn append_documentation(out: &mut String, doc: &str)
    ensures
        final(out)@ == with_documentation(old(out)@, Some(doc@)),
{
    out.append("\n\n---\n\n");
    out.append(doc);
}

/// What is shown of an optional docstring.
pub open spec fn doc_shown(doc: Option<String>) -> Option<Seq<char>> {
    match doc {
        Some(doc) => rendered(doc@),
        None => None,
    }
}

/// Code in a block of its own, with a docstring below it.
pub open spec fn markdown_text(code: Seq<char>, doc: Option<Seq<char>>) -> Seq<char> {
    with_documentation("```julia\n"@ + code + "\n```"@, doc)
}

/// `code` in a block of its own, with the docstring below it, if any is left of
/// that once it is trimmed.
pub fn markdown(code: &str, doc: &Option<String>) -> (r: String)
    ensures
        r@ == markdown_text(code@, doc_shown(*doc)),
{
    let mut out = cat("```julia\n", code);
    out.append("\n```");
    if let Some(doc) = doc {
        if let Some(doc) = render(doc.as_str()) {
            append_documentation(&mut out, doc.as_str());
        }
    }
    out
}

/// The lines that show the first `n` methods of a function.
pub open spec fn method_lines(name: Seq<char>, methods: Seq<Method>, n: int) -> Seq<Seq<char>> {
    Seq::new(n as nat, |i: int| name + method_text(methods[i]))
}

/// What is said of the methods that are not shown.
pub open spec fn more_methods(extra: nat) -> Seq<char> {
    "# + "@ + decimal(extra) + (if extra == 1 {
        " more method"@
    } else {
        " more methods"@
    })
}

/// The methods of a function, one in each line, up to a number; its name alone
/// where it has none.
pub open spec fn group_text(name: Seq<char>, methods: Seq<Method>) -> Seq<char> {
    if methods.len() == 0 {
        name
    } else if methods.len() <= MAX_METHODS {
        separated(method_lines(name, methods, methods.len() as int), "\n"@)
    } else {
        separated(
            method_lines(name, methods, MAX_METHODS as int).push(
                more_methods((methods.len() - MAX_METHODS) as nat),
            ),
            "\n"@,
        )
    }
}

/// Whether references point at the methods of a sequence, one by one.
pub open spec fn points_at_methods(refs: Seq<&Method>, methods: Seq<Method>) -> bool {
    &&& refs.len() == methods.len()
    &&& forall|i: int| 0 <= i < refs.len() ==> *(#[trigger] refs[i]) == methods[i]
}

fn render_methods(name: &str, methods: &Vec<&Method>, Ghost(all): Ghost<Seq<Method>>) -> (r: String)
    requires
        points_at_methods(methods@, all),
    ensures
        r@ == group_text(name@, all),
{
    if methods.len() == 0 {
        return name.to_owned();
    }
    let shown = if methods.len() <= MAX_METHODS {
        methods.len()
    } else {
        MAX_METHODS
    };
    let mut lines: Vec<String> = Vec::new();
    let mut i: usize = 0;
    while i < shown
        invariant
            points_at_methods(methods@, all),
            i <= shown <= methods.len(),
            lines.len() == i,
            forall|k: int|
                0 <= k < i ==> #[trigger] lines@[k]@ == name@ + method_text(all[k]),
        decreases shown - i,
    {
        let signature = render_method(methods[i]);
        lines.push(cat(name, signature.as_str()));
        i = i + 1;
    }
    proof {
        assert(lines.deep_view() =~= method_lines(name@, all, shown as int));
    }
    if methods.len() > MAX_METHODS {
        let extra = methods.len() - MAX_METHODS;
        let digits = decimal_text(extra as u64);
        let mut line = cat("# + ", digits.as_str());
        if extra == 1 {
            line.append(" more method");
        } else {
            line.append(" more methods");
        }
        let ghost before = lines.deep_view();
        lines.push(line);
        proof {
            assert(lines.deep_view() =~= before.push(more_methods(extra as nat)));
        }
    }
    join_with(&lines, "\n")
}

fn push_methods<'m>(
    group: &'m FunctionGroup,
    out: &mut Vec<&'m Method>,
    Ghost(before): Ghost<Seq<Method>>,
)
    requires
        points_at_methods(old(out)@, before),
    ensures
        points_at_methods(final(out)@, before + group.methods@),
{
    let mut i: usize = 0;
    proof {
        assert(before + group.methods@.take(0) =~= before);
    }
    while i < group.methods.len()
        invariant
            i <= group.methods.len(),
            points_at_methods(out@, before + group.methods@.take(i as int)),
        decreases group.methods.len() - i,
    {
        out.push(&group.methods[i]);
        i = i + 1;
        proof {
            assert(before + group.methods@.take(i as int) =~= (before + group.methods@.take(
                i - 1,
            )).push(group.methods@[i - 1]));
        }
    }
    proof {
        assert(group.methods@.take(i as int) =~= group.methods@);
    }
}

/// The methods of a function, one in each line.
pub fn method_group(group: &FunctionGroup) -> (r: String)
    ensures
        r@ == group_text(group.name@, group.methods@),
{
    let mut methods: Vec<&Method> = Vec::new();
    push_methods(group, &mut methods, Ghost(Seq::empty()));
    proof {
        assert(Seq::<Method>::empty() + group.methods@ =~= group.methods@);
    }
    render_methods(group.name.as_str(), &methods, Ghost(group.methods@))
}

/// That a group is of a function of the module itself.
pub open spec fn is_own_group(name: Seq<char>) -> spec_fn(FunctionGroup) -> bool {
    |group: FunctionGroup| group.name@ == name && group.owner is None
}

/// The group that a name means in a module: its own, or else the first that
/// extends a function of that name.
pub open spec fn group_index(module: ModuleIndex, name: Seq<char>) -> int {
    let own = first_index(module.functions@, is_own_group(name));
    if own < module.functions.len() {
        own
    } else {
        name_index(module.functions@, name)
    }
}

/// The group that a name means in a module.
pub fn library_function_group<'m>(module: &'m ModuleIndex, name: &str) -> (r: Option<
    &'m FunctionGroup,
>)
    ensures
        match r {
            Some(group) => group_index(*module, name@) < module.functions.len() && *group
                == module.functions@[group_index(*module, name@)],
            None => group_index(*module, name@) >= module.functions.len(),
        },
{
    let ghost here = is_own_group(name@);
    let mut at: usize = 0;
    while at < module.functions.len() && !(same_text(module.functions[at].name.as_str(), name)
        && module.functions[at].owner.is_none())
        invariant
            at <= module.functions.len(),
            here == is_own_group(name@),
            forall|k: int| 0 <= k < at ==> !here(#[trigger] module.functions@[k]),
        decreases module.functions.len() - at,
    {
        at = at + 1;
    }
    proof {
        lemma_first_index_is(module.functions@, here, at as int);
    }
    if at < module.functions.len() {
        return Some(&module.functions[at]);
    }
    let other = find_named(&module.functions, name);
    proof {
        lemma_first_index(module.functions@, has_name::<FunctionGroup>(name@));
    }
    if other < module.functions.len() {
        Some(&module.functions[other])
    } else {
        None
    }
}

/// A macro and its parameters.
pub open spec fn macro_text(def: MacroDef) -> Seq<char> {
    if def.params.len() == 0 {
        def.name@
    } else {
        def.name@ + "("@ + params_text(def.params@) + ")"@
    }
}

/// A constant and its value.
pub open spec fn const_text(name: Seq<char>, def: ConstDef) -> Seq<char> {
    match def.value_repr {
        Some(repr) => name + " = "@ + repr@,
        None => name,
    }
}

/// What is shown of a name that a module defines: a macro by its sigil, then a
/// function, a type, a constant.
pub open spec fn symbol_text(module: ModuleIndex, name: Seq<char>) -> Option<Seq<char>> {
    if name.len() > 0 && name[0] == '@' {
        let at = name_index(module.macros@, name);
        if at < module.macros.len() {
            let def = module.macros@[at];
            Some(markdown_text(macro_text(def), doc_shown(def.doc)))
        } else {
            None
        }
    } else if group_index(module, name) < module.functions.len() {
        let group = module.functions@[group_index(module, name)];
        Some(markdown_text(group_text(group.name@, group.methods@), doc_shown(group.doc)))
    } else if holds_name(module.types@, name) {
        let def = module.types@[name_index(module.types@, name)];
        Some(markdown_text(type_line(def), doc_shown(def.doc)))
    } else if holds_name(module.consts@, name) {
        let def = module.consts@[name_index(module.consts@, name)];
        Some(markdown_text(const_text(name, def), doc_shown(def.doc)))
    } else {
        None
    }
}

/// What is shown of a name that a module defines.
pub fn render_library_symbol(module: &ModuleIndex, name: &str) -> (r: Option<String>)
    ensures
        r.deep_view() == symbol_text(*module, name@),
{
    let chars = chars_of(name);
    proof {
        lemma_first_index(module.macros@, has_name::<MacroDef>(name@));
        lemma_first_index(module.types@, has_name::<TypeDef>(name@));
        lemma_first_index(module.consts@, has_name::<ConstDef>(name@));
    }
    if chars.len() > 0 && chars[0] == '@' {
        let at = find_named(&module.macros, name);
        if at >= module.macros.len() {
            return None;
        }
        let def = &module.macros[at];
        let mut head = def.name.clone();
        if def.params.len() > 0 {
            let params = render_params(&def.params);
            head.append("(");
            head.append(params.as_str());
            head.append(")");
        }
        return Some(markdown(head.as_str(), &def.doc));
    }
    if let Some(group) = library_function_group(module, name) {
        let head = method_group(group);
        return Some(markdown(head.as_str(), &group.doc));
    }
    let at = find_named(&module.types, name);
    if at < module.types.len() {
        let def = &module.types[at];
        let head = type_detail(def);
        return Some(markdown(head.as_str(), &def.doc));
    }
    let at = find_named(&module.consts, name);
    if at < module.consts.len() {
        let def = &module.consts[at];
        let head = match &def.value_repr {
            Some(repr) => {
                let mut head = cat(name, " = ");
                head.append(repr.as_str());
                head
            },
            None => name.to_owned(),
        };
        return Some(markdown(head.as_str(), &def.doc));
    }
    None
}

/// That a load brings in a module that shows a name.
pub open spec fn load_text(library: Library, module: Seq<char>, name: Seq<char>) -> spec_fn(
    ModuleLoad,
) -> Option<Seq<char>> {
    |load: ModuleLoad|
        match using_module(library, load, module) {
            Some((_, found)) => symbol_text(found, name),
            None => None,
        }
}

/// What is shown of a name that a `using` brings in: from the package of the
/// module's name, or else from the first load that leads to such a module.
pub open spec fn using_text(
    loads: Seq<ModuleLoad>,
    library: Library,
    module: Seq<char>,
    name: Seq<char>,
) -> Option<Seq<char>> {
    let direct = match package_of(library, module) {
        Some(package) => symbol_text(package.root, name),
        None => None,
    };
    if direct is Some {
        direct
    } else {
        first_found(loads, load_text(library, module, name))
    }
}

/// What is shown of a name that a `using` brings in.
pub fn library_from_using(
    model: &SemanticModel,
    library: &Library,
    module: &str,
    name: &str,
) -> (r: Option<String>)
    ensures
        r.deep_view() == using_text(model.module_loads@, *library, module@, name@),
{
    if let Some(package) = library.package(module) {
        if let Some(shown) = render_library_symbol(&package.root, name) {
            return Some(shown);
        }
    }
    let ghost find = load_text(*library, module@, name@);
    let ghost loads = model.module_loads@;
    let mut i: usize = 0;
    proof {
        assert(loads.take(0) =~= Seq::<ModuleLoad>::empty());
    }
    while i < model.module_loads.len()
        invariant
            i <= loads.len(),
            loads == model.module_loads@,
            find == load_text(*library, module@, name@),
            first_found(loads.take(i as int), find) is None,
            first_found(loads, find) == using_text(loads, *library, module@, name@),
        decreases loads.len() - i,
    {
        proof {
            lemma_first_found_step(loads, find, i as int);
        }
        if let Some((_, found)) = loaded_module(library, &model.module_loads[i], module) {
            if let Some(shown) = render_library_symbol(found, name) {
                proof {
                    lemma_first_found_stays(loads, find, i + 1);
                }
                return Some(shown);
            }
        }
        i = i + 1;
    }
    proof {
        assert(loads.take(i as int) =~= loads);
    }
    None
}

/// The methods of groups, one behind the other.
pub open spec fn methods_of(groups: Seq<FunctionGroup>) -> Seq<Method>
    decreases groups.len(),
{
    if groups.len() == 0 {
        Seq::empty()
    } else {
        methods_of(groups.drop_last()) + groups.last().methods@
    }
}

/// The docstring of a function with extensions: its own, or else the first that
/// an extension has.
pub open spec fn doc_of(own: Option<String>, groups: Seq<FunctionGroup>) -> Option<String>
    decreases groups.len(),
{
    if groups.len() == 0 {
        own
    } else {
        match doc_of(own, groups.drop_last()) {
            Some(doc) => Some(doc),
            None => groups.last().doc,
        }
    }
}

/// The package that the head of a qualified name means: the one under development
/// before any other.
pub open spec fn head_package(
    library: Library,
    workspace: Option<&PackageIndex>,
    head: Seq<char>,
) -> Option<PackageIndex> {
    match workspace {
        Some(package) => if package.name@ == head {
            Some(*package)
        } else {
            package_of(library, head)
        },
        None => package_of(library, head),
    }
}

/// The module that a qualified name's path leads to.
pub open spec fn path_module(
    library: Library,
    workspace: Option<&PackageIndex>,
    path: Seq<Seq<char>>,
) -> Option<ModuleIndex> {
    if path.len() == 0 {
        None
    } else {
        match head_package(library, workspace, path[0]) {
            Some(package) => submodule(package.root, path.skip(1)),
            None => None,
        }
    }
}

/// What is shown of the name at the end of a qualified name. Methods with which
/// the workspace extends a function join its own; a macro, a type or a constant
/// of the library shows as it is.
pub open spec fn qualified_text(
    library: Library,
    workspace: Option<&PackageIndex>,
    path: Seq<Seq<char>>,
    name: Seq<char>,
) -> Option<Seq<char>> {
    let module = path_module(library, workspace, path);
    let groups = match workspace {
        Some(package) => extensions(package.root, path, name),
        None => Seq::empty(),
    };
    if (name.len() > 0 && name[0] == '@') || groups.len() == 0 {
        match module {
            Some(module) => symbol_text(module, name),
            None => None,
        }
    } else if module is Some && !holds_name(module->0.functions@, name) && (holds_name(
        module->0.types@,
        name,
    ) || holds_name(module->0.consts@, name)) {
        symbol_text(module->0, name)
    } else {
        let own = if module is Some && group_index(module->0, name) < module->0.functions.len() {
            Some(module->0.functions@[group_index(module->0, name)])
        } else {
            None
        };
        let (shown, methods, doc) = match own {
            Some(group) => (group.name@, group.methods@, group.doc),
            None => (name, Seq::empty(), None),
        };
        Some(
            markdown_text(
                group_text(shown, methods + methods_of(groups)),
                doc_shown(doc_of(doc, groups)),
            ),
        )
    }
}

/// What is shown of the name `name` of the module that `path` leads to.
pub fn render_qualified_symbol(
    library: &Library,
    workspace: Option<&PackageIndex>,
    path: &Vec<String>,
    name: &str,
) -> (r: Option<String>)
    ensures
        r.deep_view() == qualified_text(*library, workspace, path.deep_view(), name@),
{
    let ghost parts = path.deep_view();
    let package = if path.len() == 0 {
        None
    } else {
        proof {
            assert(parts[0] == path@[0]@);
        }
        let head = path[0].as_str();
        match workspace {
            Some(package) => if same_text(package.name.as_str(), head) {
                Some(package)
            } else {
                library.package(head)
            },
            None => library.package(head),
        }
    };
    let module = match package {
        Some(package) => resolve_submodule(&package.root, path, 1),
        None => None,
    };
    let groups: Vec<&FunctionGroup> = match workspace {
        Some(package) => extension_groups(&package.root, path, name),
        None => Vec::new(),
    };
    let ghost all = match workspace {
        Some(package) => extensions(package.root, parts, name@),
        None => Seq::empty(),
    };
    let chars = chars_of(name);
    if (chars.len() > 0 && chars[0] == '@') || groups.len() == 0 {
        return match module {
            Some(module) => render_library_symbol(module, name),
            None => None,
        };
    }
    if let Some(module) = module {
        if find_named(&module.functions, name) >= module.functions.len() && (find_named(
            &module.types,
            name,
        ) < module.types.len() || find_named(&module.consts, name) < module.consts.len()) {
            return render_library_symbol(module, name);
        }
    }
    let own = match module {
        Some(module) => library_function_group(module, name),
        None => None,
    };
    let mut methods: Vec<&Method> = Vec::new();
    let mut doc: &Option<String> = &None;
    let mut shown: &str = name;
    let ghost mut listed: Seq<Method> = Seq::empty();
    if let Some(group) = own {
        push_methods(group, &mut methods, Ghost(Seq::empty()));
        doc = &group.doc;
        shown = group.name.as_str();
        proof {
            listed = group.methods@;
            assert(Seq::<Method>::empty() + listed =~= listed);
        }
    }
    let ghost base = listed;
    let ghost base_doc = *doc;
    let mut i: usize = 0;
    proof {
        assert(all.take(0) =~= Seq::<FunctionGroup>::empty());
        assert(base + methods_of(all.take(0)) =~= base);
    }
    while i < groups.len()
        invariant
            i <= groups.len(),
            points_at(groups@, all),
            points_at_methods(methods@, listed),
            listed == base + methods_of(all.take(i as int)),
            *doc == doc_of(base_doc, all.take(i as int)),
        decreases groups.len() - i,
    {
        let group = groups[i];
        proof {
            assert(all.take(i + 1).drop_last() =~= all.take(i as int));
        }
        push_methods(group, &mut methods, Ghost(listed));
        proof {
            listed = listed + group.methods@;
            assert(listed =~= base + methods_of(all.take(i + 1)));
        }
        if doc.is_none() {
            doc = &group.doc;
        }
        i = i + 1;
    }
    proof {
        assert(all.take(i as int) =~= all);
    }
    let code = render_methods(shown, &methods, Ghost(listed));
    Some(markdown(code.as_str(), doc))
}

/// The code that shows a binding: the line of its definition for a function, a
/// type or a macro, its name otherwise.
pub open spec fn binding_code(s: Seq<char>, binding: Binding) -> Seq<char> {
    match binding.kind {
        BindingKind::Function | BindingKind::Type | BindingKind::Macro => match line_shown(
            s,
            binding.def_range.start as int,
        ) {
            Some(line) => line,
            None => binding.name@,
        },
        _ => binding.name@,
    }
}

/// What a docstring shows.
pub open spec fn shows() -> spec_fn(String) -> Option<Seq<char>> {
    |doc: String| rendered(doc@)
}

/// What is shown of a binding: its code, its kind, and the first of its
/// docstrings that shows anything.
pub open spec fn binding_text(s: Seq<char>, binding: Binding) -> Seq<char> {
    with_documentation(
        "```julia\n"@ + binding_code(s, binding) + "\n```\n\n*"@ + kind_label(binding.kind)
            + "*"@,
        first_found(binding.docs@, shows()),
    )
}

/// What is shown of binding `id`.
pub fn render_local(model: &SemanticModel, id: usize, text: &str) -> (r: String)
    requires
        id < model.bindings.len(),
        fits(text@),
    ensures
        r@ == binding_text(text@, model.bindings@[id as int]),
{
    let binding = &model.bindings[id];
    let code = match binding.kind {
        BindingKind::Function | BindingKind::Type | BindingKind::Macro => match definition_line(
            text,
            binding.def_range.start as usize,
        ) {
            Some(line) => line,
            None => binding.name.clone(),
        },
        _ => binding.name.clone(),
    };
    let mut out = cat("```julia\n", code.as_str());
    out.append("\n```\n\n*");
    out.append(binding_detail(binding.kind));
    out.append("*");
    let ghost docs = binding.docs@;
    let mut i: usize = 0;
    proof {
        assert(docs.take(0) =~= Seq::<String>::empty());
    }
    while i < binding.docs.len()
        invariant
            i <= docs.len(),
            docs == binding.docs@,
            *binding == model.bindings@[id as int],
            out@ == "```julia\n"@ + binding_code(text@, *binding) + "\n```\n\n*"@ + kind_label(
                binding.kind,
            ) + "*"@,
            first_found(docs.take(i as int), shows()) is None,
        decreases docs.len() - i,
    {
        proof {
            lemma_first_found_step(docs, shows(), i as int);
        }
        if let Some(doc) = render(binding.docs[i].as_str()) {
            proof {
                lemma_first_found_stays(docs, shows(), i + 1);
            }
            append_documentation(&mut out, doc.as_str());
            return out;
        }
        i = i + 1;
    }
    proof {
        assert(docs.take(i as int) =~= docs);
    }
    out
}

/// What is shown of a name that the file does not bind.
pub open spec fn free_text(
    model: SemanticModel,
    library: Library,
    workspace: Option<&PackageIndex>,
    s: Seq<char>,
    resolution: Resolution,
) -> Option<Seq<char>> {
    match resolution {
        Resolution::Binding(id) => Some(binding_text(s, model.bindings@[id as int])),
        Resolution::Workspace { path, name } => match workspace {
            Some(package) => match submodule(package.root, path.deep_view()) {
                Some(host) => symbol_text(host, name@),
                None => None,
            },
            None => None,
        },
        Resolution::System { module, name } => match package_of(library, module@) {
            Some(package) => symbol_text(package.root, name@),
            None => None,
        },
        Resolution::Using { module, name } => using_text(
            model.module_loads@,
            library,
            module@,
            name@,
        ),
        Resolution::WorkspaceImport => None,
        Resolution::Unresolved => None,
    }
}

/// What is shown of a name that the file does not bind.
pub fn render_free_read(
    model: &SemanticModel,
    library: &Library,
    workspace: Option<&PackageIndex>,
    text: &str,
    resolution: &Resolution,
) -> (r: Option<String>)
    requires
        fits(text@),
        resolution is Binding ==> resolution->Binding_0 < model.bindings.len(),
    ensures
        r.deep_view() == free_text(*model, *library, workspace, text@, *resolution),
{
    match resolution {
        Resolution::Binding(id) => Some(render_local(model, *id, text)),
        Resolution::Workspace { path, name } => {
            let package = match workspace {
                Some(package) => package,
                None => {
                    return None;
                },
            };
            proof {
                assert(path.deep_view().skip(0) =~= path.deep_view());
            }
            match resolve_submodule(&package.root, path, 0) {
                Some(host) => render_library_symbol(host, name.as_str()),
                None => None,
            }
        },
        Resolution::System { module, name } => match library.package(module.as_str()) {
            Some(package) => render_library_symbol(&package.root, name.as_str()),
            None => None,
        },
        Resolution::Using { module, name } => library_from_using(
            model,
            library,
            module.as_str(),
            name.as_str(),
        ),
        Resolution::WorkspaceImport => None,
        Resolution::Unresolved => None,
    }
}

/// What is shown at an offset, and the range it is about: a qualified name, an
/// occurrence, or a definition, whichever spans it first.
pub open spec fn content_at(
    model: SemanticModel,
    library: Library,
    workspace: Option<&PackageIndex>,
    s: Seq<char>,
    offset: u32,
) -> Option<(Seq<char>, TextRange)> {
    let read = first_index(model.qualified_reads@, read_spans(offset));
    let ident = first_index(model.idents@, ident_spans(offset));
    let binding = first_index(model.bindings@, binding_spans(offset));
    if read < model.qualified_reads.len() {
        let q = model.qualified_reads@[read];
        let path = q.path.deep_view();
        if path.len() == 0 {
            None
        } else {
            match qualified_text(library, workspace, path.drop_last(), path.last()) {
                Some(text) => Some((text, q.range)),
                None => None,
            }
        }
    } else if ident < model.idents.len() {
        let i = model.idents@[ident];
        match i.binding {
            Some(id) => Some((binding_text(s, model.bindings@[id as int]), i.range)),
            None => match free_text(model, library, workspace, s, i.resolution) {
                Some(text) => Some((text, i.range)),
                None => None,
            },
        }
    } else if binding < model.bindings.len() {
        let b = model.bindings@[binding];
        Some((binding_text(s, b), b.def_range))
    } else {
        None
    }
}

/// What is shown at an offset of `text`, and the range it is about.
pub fn hover_content(
    model: &SemanticModel,
    library: &Library,
    workspace: Option<&PackageIndex>,
    text: &str,
    offset: u32,
) -> (r: Option<(String, TextRange)>)
    requires
        model.wf(),
        fits(text@),
    ensures
        match r {
            Some((value, range)) => content_at(*model, *library, workspace, text@, offset) == Some(
                (value@, range),
            ),
            None => content_at(*model, *library, workspace, text@, offset) is None,
        },
{
    let read = model.qualified_at(offset);
    if read < model.qualified_reads.len() {
        let q = &model.qualified_reads[read];
        let count = q.path.len();
        if count == 0 {
            return None;
        }
        let mut path = crate::strings::copy_texts(&q.path);
        let ghost whole = path.deep_view();
        path.pop();
        proof {
            assert(path.deep_view() =~= whole.drop_last());
            assert(whole.last() == q.path@[count - 1]@);
        }
        return match render_qualified_symbol(
            library,
            workspace,
            &path,
            q.path[count - 1].as_str(),
        ) {
            Some(value) => Some((value, q.range)),
            None => None,
        };
    }
    let ident = model.ident_at(offset);
    if ident < model.idents.len() {
        let ident = &model.idents[ident];
        return match ident.binding {
            Some(id) => Some((render_local(model, id, text), ident.range)),
            None => match render_free_read(model, library, workspace, text, &ident.resolution) {
                Some(value) => Some((value, ident.range)),
                None => None,
            },
        };
    }
    let binding = model.binding_at(offset);
    if binding < model.bindings.len() {
        let range = model.bindings[binding].def_range;
        return Some((render_local(model, binding, text), range));
    }
    None
}

/// The names in the Julia code of a docstring's fence. Each name that neither the
/// code nor what it loads knows has in `outer` what it resolves to where the
/// documented definition stands.
#[derive(Debug)]
pub struct FenceNames {
    pub model: SemanticModel,
    pub outer: Vec<Resolution>,
}

impl FenceNames {
    /// The names are in order, and each occurrence has what it resolves to outside,
    /// which is a binding of `outside` if it is a binding.
    pub open spec fn wf(&self, outside: SemanticModel) -> bool {
        &&& self.model.wf()
        &&& self.outer.len() == self.model.idents.len()
        &&& forall|i: int|
            0 <= i < self.outer.len() && (#[trigger] self.outer@[i]) is Binding
                ==> self.outer@[i]->Binding_0 < outside.bindings.len()
    }
}

/// What is shown in the code of a fence: what the code itself shows, or else what
/// the name under the cursor means outside. `map` is that of the docstring.
pub open spec fn embedded_content(
    code: EmbeddedView,
    map: SourceMap,
    names: FenceNames,
    model: SemanticModel,
    library: Library,
    workspace: Option<&PackageIndex>,
    s: Seq<char>,
) -> Option<(Seq<char>, TextRange)> {
    let at = first_index(names.model.idents@, ident_spans(code.offset));
    let nested = match content_at(names.model, library, workspace, code.text, code.offset) {
        Some(found) => Some(found),
        None => if at < names.model.idents.len() && names.model.idents@[at].binding is None {
            match free_text(model, library, workspace, s, names.outer@[at]) {
                Some(text) => Some((text, names.model.idents@[at].range)),
                None => None,
            }
        } else {
            None
        },
    };
    match nested {
        Some((text, range)) => match fence_source(map, code.range, range) {
            Some(source) => Some((text, source)),
            None => None,
        },
        None => None,
    }
}

/// The hover at an offset: in the Julia code of the docstring there, where the
/// cursor is in a fence and that shows anything, in the file otherwise.
pub open spec fn hover_at(
    model: SemanticModel,
    library: Library,
    workspace: Option<&PackageIndex>,
    docs: Seq<DocText>,
    names: Option<&FenceNames>,
    s: Seq<char>,
    offset: u32,
) -> Option<(Seq<char>, TextRange)> {
    let nested = match (code_at(docs, offset), names) {
        (Some((at, code)), Some(names)) => embedded_content(
            code,
            docs[at].map,
            *names,
            model,
            library,
            workspace,
            s,
        ),
        _ => None,
    };
    match nested {
        Some(found) => Some(found),
        None => content_at(model, library, workspace, s, offset),
    }
}

fn hover_embedded(
    code: &EmbeddedJulia,
    map: &SourceMap,
    names: &FenceNames,
    model: &SemanticModel,
    library: &Library,
    workspace: Option<&PackageIndex>,
    text: &str,
) -> (r: Option<(String, TextRange)>)
    requires
        fits(code.text@),
        names.wf(*model),
        fits(text@),
    ensures
        match r {
            Some((value, range)) => embedded_content(
                code.deep_view(),
                *map,
                *names,
                *model,
                *library,
                workspace,
                text@,
            ) == Some((value@, range)),
            None => embedded_content(
                code.deep_view(),
                *map,
                *names,
                *model,
                *library,
                workspace,
                text@,
            ) is None,
        },
{
    let nested = match hover_content(
        &names.model,
        library,
        workspace,
        code.text.as_str(),
        code.offset,
    ) {
        Some(found) => Some(found),
        None => {
            let at = names.model.ident_at(code.offset);
            if at < names.model.idents.len() && names.model.idents[at].binding.is_none() {
                match render_free_read(model, library, workspace, text, &names.outer[at]) {
                    Some(value) => Some((value, names.model.idents[at].range)),
                    None => None,
                }
            } else {
                None
            }
        },
    };
    match nested {
        Some((value, range)) => match code.source_range(map, range) {
            Some(source) => Some((value, source)),
            None => None,
        },
        None => None,
    }
}

/// The hover at `offset`. `docs` are the docstrings of the file, and `names` are
/// those of the code that [`find_code`] finds there, if it finds any.
pub fn hover_for(
    model: &SemanticModel,
    library: &Library,
    workspace: Option<&PackageIndex>,
    docs: &Vec<DocText>,
    names: Option<&FenceNames>,
    text: &str,
    offset: u32,
    line_index: &LineIndex,
    encoding: PositionEncoding,
) -> (r: Option<Hover>)
    requires
        model.wf(),
        fits(text@),
        line_index.wf(),
        docs_wf(docs@),
        names is Some ==> names->0.wf(*model),
    ensures
        match hover_at(*model, *library, workspace, docs@, names, text@, offset) {
            Some((value, range)) => r is Some && r->0.value@ == value && r->0.range == range_at(
                line_index@,
                range.start as int,
                range.end as int,
                encoding,
            ),
            None => r is None,
        },
{
    let nested = match (find_code(docs, offset), names) {
        (Some((at, code)), Some(names)) => {
            proof {
                lemma_code_fits(docs@, offset);
            }
            hover_embedded(&code, &docs[at].map, names, model, library, workspace, text)
        },
        _ => None,
    };
    let found = match nested {
        Some(found) => Some(found),
        None => hover_content(model, library, workspace, text, offset),
    };
    match found {
        Some((value, range)) => Some(
            Hover {
                value,
                range: line_index.range(range.start as usize, range.end as usize, encoding),
            },
        ),
        None => None,
    }
}

/// The hover at `position` of `text`, whose names `model` resolves.
pub fn compute_hover(
    text: &str,
    position: Position,
    model: &SemanticModel,
    library: &Library,
    workspace: Option<&PackageIndex>,
    docs: &Vec<DocText>,
    names: Option<&FenceNames>,
    encoding: PositionEncoding,
) -> (r: Option<Hover>)
    requires
        model.wf(),
        fits(text@),
        docs_wf(docs@),
        names is Some ==> names->0.wf(*model),
    ensures
        match hover_at(
            *model,
            *library,
            workspace,
            docs@,
            names,
            text@,
            offset_at(text@, position, encoding) as u32,
        ) {
            Some((value, range)) => r is Some && r->0.value@ == value && r->0.range == range_at(
                text@,
                range.start as int,
                range.end as int,
                encoding,
            ),
            None => r is None,
        },
{
    let line_index = LineIndex::new(text);
    proof {
        lemma_offset_bounded(text@, position, encoding);
    }
    let offset = line_index.position_to_byte(position, encoding) as u32;
    hover_for(model, library, workspace, docs, names, text, offset, &line_index, encoding)
}

pub proof fn lemma_no_group(module: ModuleIndex, name: Seq<char>)
    requires
        nothing_named(module.functions@, name),
    ensures
        group_index(module, name) >= module.functions.len(),
{
    lemma_nothing_named(module.functions@, name);
    let own = is_own_group(name);
    assert forall|k: int| 0 <= k < module.functions.len() implies !own(
        #[trigger] module.functions@[k],
    ) by {
        assert(module.functions@[k].named() != name);
    }
    lemma_first_index_is(module.functions@, own, module.functions.len() as int);
}


/// Code is shown in a block of Julia, and a docstring that holds more than whitespace
/// below a rule, without the whitespace around it.
pub proof fn law_code_is_shown_with_its_docstring(code: Seq<char>, doc: Option<String>)
    ensures
        ({
            let block = "```julia\n"@ + code + "\n```"@;
            let text = markdown_text(code, doc_shown(doc));
            &&& block.is_prefix_of(text)
            &&& doc is None ==> text == block
            &&& doc is Some && trimmed(doc->0@).len() == 0 ==> text == block
            &&& doc is Some && trimmed(doc->0@).len() > 0 ==> text == block + "\n\n---\n\n"@
                + trimmed(doc->0@)
        }),
{
    let block = "```julia\n"@ + code + "\n```"@;
    let text = markdown_text(code, doc_shown(doc));
    assert(text.subrange(0, block.len() as int) =~= block);
}

/// What is shown of a name that a module defines is the first thing of that name: a
/// macro where it has a sigil, and else a function with all its methods, a type, or a
/// constant with its value; each with its docstring.
pub proof fn law_hover_shows_what_a_module_defines(module: ModuleIndex, name: Seq<char>, i: int)
    ensures
        ({
            let sigil = name.len() > 0 && name[0] == '@';
            let text = symbol_text(module, name);
            &&& sigil && first_named(module.macros@, name, i) ==> text == Some(
                markdown_text(macro_text(module.macros@[i]), doc_shown(module.macros@[i].doc)),
            )
            &&& sigil && nothing_named(module.macros@, name) ==> text is None
            &&& !sigil && 0 <= i < module.functions.len() && module.functions@[i].name@ == name
                && module.functions@[i].owner is None && (forall|k: int|
                0 <= k < i ==> (#[trigger] module.functions@[k]).name@ != name
                    || module.functions@[k].owner is Some) ==> text == Some(
                markdown_text(
                    group_text(name, module.functions@[i].methods@),
                    doc_shown(module.functions@[i].doc),
                ),
            )
            &&& !sigil && nothing_named(module.functions@, name) && first_named(
                module.types@,
                name,
                i,
            ) ==> text == Some(
                markdown_text(type_line(module.types@[i]), doc_shown(module.types@[i].doc)),
            )
            &&& !sigil && nothing_named(module.functions@, name) && nothing_named(
                module.types@,
                name,
            ) && first_named(module.consts@, name, i) ==> text == Some(
                markdown_text(
                    const_text(name, module.consts@[i]),
                    doc_shown(module.consts@[i].doc),
                ),
            )
            &&& !sigil && nothing_named(module.functions@, name) && nothing_named(
                module.types@,
                name,
            ) && nothing_named(module.consts@, name) ==> text is None
        }),
{
    if first_named(module.macros@, name, i) {
        lemma_first_named(module.macros@, name, i);
    }
    if nothing_named(module.macros@, name) {
        lemma_nothing_named(module.macros@, name);
    }
    if nothing_named(module.functions@, name) {
        lemma_no_group(module, name);
    }
    if first_named(module.types@, name, i) {
        lemma_first_named(module.types@, name, i);
    }
    if nothing_named(module.types@, name) {
        lemma_nothing_named(module.types@, name);
    }
    if first_named(module.consts@, name, i) {
        lemma_first_named(module.consts@, name, i);
    }
    if nothing_named(module.consts@, name) {
        lemma_nothing_named(module.consts@, name);
    }
    if 0 <= i < module.functions.len() && module.functions@[i].name@ == name
        && module.functions@[i].owner is None && (forall|k: int|
        0 <= k < i ==> (#[trigger] module.functions@[k]).name@ != name
            || module.functions@[k].owner is Some) {
        let own = is_own_group(name);
        assert forall|k: int| 0 <= k < i implies !own(#[trigger] module.functions@[k]) by {}
        lemma_first_index_is(module.functions@, own, i);
    }
}

/// A macro shows its parameters in brackets where it has any, and a constant its value
/// where it is known.
pub proof fn law_macros_and_constants_show_what_they_have(
    def: MacroDef,
    name: Seq<char>,
    constant: ConstDef,
)
    ensures
        def.params@.len() == 0 ==> macro_text(def) == def.name@,
        def.params@.len() > 0 ==> macro_text(def) == def.name@ + "("@ + params_text(def.params@)
            + ")"@,
        constant.value_repr is Some ==> const_text(name, constant) == name + " = "@
            + constant.value_repr->0@,
        constant.value_repr is None ==> const_text(name, constant) == name,
{
}

/// Each method of a function is shown in a line of its own behind its name, up to ten;
/// what is left is counted in one line more.
pub proof fn law_methods_are_shown_one_by_one(name: Seq<char>, methods: Seq<Method>)
    ensures
        methods.len() == 0 ==> group_text(name, methods) == name,
        0 < methods.len() <= 10 ==> group_text(name, methods) == separated(
            Seq::new(methods.len(), |i: int| name + method_text(methods[i])),
            "\n"@,
        ),
        methods.len() > 10 ==> group_text(name, methods) == separated(
            Seq::new(10, |i: int| name + method_text(methods[i])),
            "\n"@,
        ) + "\n# + "@ + decimal((methods.len() - 10) as nat) + " more method"@ + (if methods.len()
            == 11 {
            Seq::empty()
        } else {
            "s"@
        }),
{
    reveal_strlit("\n");
    reveal_strlit("# + ");
    reveal_strlit("\n# + ");
    reveal_strlit(" more method");
    reveal_strlit(" more methods");
    reveal_strlit("s");
    assert("\n# + "@ =~= "\n"@ + "# + "@);
    assert(" more methods"@ =~= " more method"@ + "s"@);
    if methods.len() > 10 {
        let lines = method_lines(name, methods, 10);
        let more = more_methods((methods.len() - 10) as nat);
        assert(lines.push(more).drop_last() =~= lines);
        assert(lines =~= Seq::new(10, |i: int| name + method_text(methods[i])));
        assert(group_text(name, methods) =~= separated(lines, "\n"@) + "\n# + "@ + decimal(
            (methods.len() - 10) as nat,
        ) + " more method"@ + (if methods.len() == 11 {
            Seq::empty()
        } else {
            "s"@
        }));
    } else if methods.len() > 0 {
        assert(method_lines(name, methods, methods.len() as int) =~= Seq::new(
            methods.len(),
            |i: int| name + method_text(methods[i]),
        ));
    }
}

/// A binding is shown as the line that defines it where it is a function, a type or a
/// macro and that line is not blank, and as its name otherwise, with the word for its
/// kind and the first of its docstrings that holds more than whitespace.
pub proof fn law_bindings_show_their_definition(s: Seq<char>, binding: Binding, k: int)
    ensures
        ({
            let line = trimmed(line_around(s, binding.def_range.start as int));
            let lined = binding.kind == BindingKind::Function || binding.kind == BindingKind::Type
                || binding.kind == BindingKind::Macro;
            let code = if lined && line.len() > 0 {
                line
            } else {
                binding.name@
            };
            let head = "```julia\n"@ + code + "\n```\n\n*"@ + kind_label(binding.kind) + "*"@;
            let blank = |i: int| trimmed(binding.docs@[i]@).len() == 0;
            &&& head.is_prefix_of(binding_text(s, binding))
            &&& (forall|i: int| 0 <= i < binding.docs.len() ==> #[trigger] blank(i)) ==> binding_text(
                s,
                binding,
            ) == head
            &&& 0 <= k < binding.docs.len() && !blank(k) && (forall|i: int|
                0 <= i < k ==> #[trigger] blank(i)) ==> binding_text(s, binding) == head
                + "\n\n---\n\n"@ + trimmed(binding.docs@[k]@)
        }),
{
    let line = trimmed(line_around(s, binding.def_range.start as int));
    let lined = binding.kind == BindingKind::Function || binding.kind == BindingKind::Type
        || binding.kind == BindingKind::Macro;
    let code = if lined && line.len() > 0 {
        line
    } else {
        binding.name@
    };
    let head = "```julia\n"@ + code + "\n```\n\n*"@ + kind_label(binding.kind) + "*"@;
    let blank = |i: int| trimmed(binding.docs@[i]@).len() == 0;
    assert(binding_code(s, binding) == code);
    assert(binding_text(s, binding).subrange(0, head.len() as int) =~= head);
    let docs = binding.docs@;
    if forall|i: int| 0 <= i < docs.len() ==> #[trigger] blank(i) {
        assert forall|i: int| 0 <= i < docs.len() implies trimmed((#[trigger] docs[i])@).len() == 0 by {
            assert(blank(i));
        }
        lemma_all_blank(docs, docs.len() as int);
        assert(docs.take(docs.len() as int) =~= docs);
    }
    if 0 <= k < docs.len() && !blank(k) && (forall|i: int| 0 <= i < k ==> #[trigger] blank(i)) {
        assert forall|i: int| 0 <= i < k implies trimmed((#[trigger] docs[i])@).len() == 0 by {
            assert(blank(i));
        }
        lemma_all_blank(docs, k);
        lemma_first_found_step(docs, shows(), k);
        lemma_first_found_stays(docs, shows(), k + 1);
    }
}

proof fn lemma_all_blank(docs: Seq<String>, n: int)
    requires
        0 <= n <= docs.len(),
        forall|i: int| 0 <= i < n ==> trimmed((#[trigger] docs[i])@).len() == 0,
    ensures
        first_found(docs.take(n), shows()) is None,
    decreases n,
{
    if n > 0 {
        lemma_all_blank(docs, n - 1);
        lemma_first_found_step(docs, shows(), n - 1);
        assert(trimmed(docs[n - 1]@).len() == 0);
    } else {
        assert(docs.take(0) =~= Seq::<String>::empty());
    }
}

/// What a name that the file does not bind shows is what it resolves to shows.
pub proof fn law_free_names_show_what_they_resolve_to(
    model: SemanticModel,
    library: Library,
    workspace: Option<&PackageIndex>,
    s: Seq<char>,
    resolution: Resolution,
)
    ensures
        ({
            let text = free_text(model, library, workspace, s, resolution);
            match resolution {
                Resolution::Binding(id) => text == Some(
                    binding_text(s, model.bindings@[id as int]),
                ),
                Resolution::Workspace { path, name } => {
                    &&& workspace is None ==> text is None
                    &&& workspace is Some ==> text == match submodule(
                        workspace->0.root,
                        path.deep_view(),
                    ) {
                        Some(host) => symbol_text(host, name@),
                        None => None,
                    }
                },
                Resolution::System { module, name } => text == match package_of(library, module@) {
                    Some(package) => symbol_text(package.root, name@),
                    None => None,
                },
                Resolution::Using { module, name } => package_of(library, module@) is Some
                    && symbol_text(package_of(library, module@)->0.root, name@) is Some ==> text
                    == symbol_text(package_of(library, module@)->0.root, name@),
                _ => text is None,
            }
        }),
{
}

/// A name that a `using` brings in shows what the first load that leads to it shows,
/// where the package of the module's name does not show it.
pub proof fn law_using_shows_the_first_load(
    loads: Seq<ModuleLoad>,
    library: Library,
    module: Seq<char>,
    name: Seq<char>,
    i: int,
)
    requires
        package_of(library, module) is Some ==> symbol_text(
            package_of(library, module)->0.root,
            name,
        ) is None,
    ensures
        ({
            let found = |k: int|
                match using_module(library, loads[k], module) {
                    Some((_, used)) => symbol_text(used, name) is Some,
                    None => false,
                };
            &&& 0 <= i < loads.len() && found(i) && (forall|k: int| 0 <= k < i ==> !#[trigger] found(k))
                ==> match using_module(library, loads[i], module) {
                Some((_, used)) => using_text(loads, library, module, name) == symbol_text(
                    used,
                    name,
                ),
                None => false,
            }
            &&& (forall|k: int| 0 <= k < loads.len() ==> !#[trigger] found(k)) ==> using_text(
                loads,
                library,
                module,
                name,
            ) is None
        }),
{
    let find = load_text(library, module, name);
    let found = |k: int|
        match using_module(library, loads[k], module) {
                    Some((_, used)) => symbol_text(used, name) is Some,
                    None => false,
                };
    if 0 <= i < loads.len() && found(i) && (forall|k: int| 0 <= k < i ==> !#[trigger] found(k)) {
        assert forall|k: int| 0 <= k < i implies find(#[trigger] loads[k]) is None by {
            assert(!found(k));
        }
        lemma_loads_show_nothing(loads, library, module, name, i);
        lemma_first_found_step(loads, find, i);
        lemma_first_found_stays(loads, find, i + 1);
    }
    if forall|k: int| 0 <= k < loads.len() ==> !#[trigger] found(k) {
        assert forall|k: int| 0 <= k < loads.len() implies find(#[trigger] loads[k]) is None by {
            assert(!found(k));
        }
        lemma_loads_show_nothing(loads, library, module, name, loads.len() as int);
        assert(loads.take(loads.len() as int) =~= loads);
    }
}

proof fn lemma_loads_show_nothing(
    loads: Seq<ModuleLoad>,
    library: Library,
    module: Seq<char>,
    name: Seq<char>,
    n: int,
)
    requires
        0 <= n <= loads.len(),
        forall|k: int|
            0 <= k < n ==> load_text(library, module, name)(#[trigger] loads[k]) is None,
    ensures
        first_found(loads.take(n), load_text(library, module, name)) is None,
    decreases n,
{
    if n > 0 {
        lemma_loads_show_nothing(loads, library, module, name, n - 1);
        lemma_first_found_step(loads, load_text(library, module, name), n - 1);
        assert(load_text(library, module, name)(loads[n - 1]) is None);
    } else {
        assert(loads.take(0) =~= Seq::<ModuleLoad>::empty());
    }
}

/// A qualified function shows its own methods and behind them those with which the
/// workspace extends it, and its own docstring before any of theirs; without an
/// extension, and for a macro, a type or a constant, what its module defines is shown.
pub proof fn law_qualified_names_show_their_extensions(
    library: Library,
    workspace: Option<&PackageIndex>,
    path: Seq<Seq<char>>,
    name: Seq<char>,
)
    requires
        path_module(library, workspace, path) is Some,
    ensures
        ({
            let module = path_module(library, workspace, path)->0;
            let groups = if workspace is Some {
                extensions(workspace->0.root, path, name)
            } else {
                Seq::empty()
            };
            let text = qualified_text(library, workspace, path, name);
            &&& groups.len() == 0 ==> text == symbol_text(module, name)
            &&& name.len() > 0 && name[0] == '@' ==> text == symbol_text(module, name)
            &&& nothing_named(module.functions@, name) && (!nothing_named(module.types@, name)
                || !nothing_named(module.consts@, name)) ==> text == symbol_text(module, name)
            &&& groups.len() > 0 && !(name.len() > 0 && name[0] == '@') && group_index(module, name)
                < module.functions.len() ==> {
                let group = module.functions@[group_index(module, name)];
                text == Some(
                    markdown_text(
                        group_text(group.name@, group.methods@ + methods_of(groups)),
                        doc_shown(
                            if group.doc is Some {
                                group.doc
                            } else {
                                doc_of(None, groups)
                            },
                        ),
                    ),
                )
            }
        }),
{
    let module = path_module(library, workspace, path)->0;
    let groups = if workspace is Some {
        extensions(workspace->0.root, path, name)
    } else {
        Seq::empty()
    };
    lemma_first_index(module.functions@, has_name::<FunctionGroup>(name));
    lemma_first_index(module.types@, has_name::<TypeDef>(name));
    lemma_first_index(module.consts@, has_name::<ConstDef>(name));
    lemma_first_index(module.functions@, is_own_group(name));
    if nothing_named(module.functions@, name) {
        lemma_nothing_named(module.functions@, name);
    }
    if !nothing_named(module.types@, name) {
        let k = choose|k: int|
            0 <= k < module.types.len() && (#[trigger] module.types@[k]).named() == name;
        assert(has_name::<TypeDef>(name)(module.types@[k]));
    }
    if !nothing_named(module.consts@, name) {
        let k = choose|k: int|
            0 <= k < module.consts.len() && (#[trigger] module.consts@[k]).named() == name;
        assert(has_name::<ConstDef>(name)(module.consts@[k]));
    }
    if group_index(module, name) < module.functions.len() {
        let group = module.functions@[group_index(module, name)];
        assert(group.name@ == name);
        assert(holds_name(module.functions@, name)) by {
            assert(has_name::<FunctionGroup>(name)(group));
        }
        lemma_own_doc(group.doc, groups);
    }
}

proof fn lemma_own_doc(own: Option<String>, groups: Seq<FunctionGroup>)
    ensures
        own is Some ==> doc_of(own, groups) == own,
    decreases groups.len(),
{
    if groups.len() > 0 {
        lemma_own_doc(own, groups.drop_last());
    }
}

/// Every method of every group is among the methods of the groups, and without a
/// docstring of its own a function has the first that an extension has.
pub proof fn law_extensions_contribute_all_they_have(groups: Seq<FunctionGroup>, g: int, m: int)
    requires
        0 <= g < groups.len(),
    ensures
        0 <= m < groups[g].methods.len() ==> methods_of(groups).contains(groups[g].methods@[m]),
        groups[g].doc is Some && (forall|k: int|
            0 <= k < g ==> (#[trigger] groups[k]).doc is None) ==> doc_of(None, groups)
            == groups[g].doc,
    decreases groups.len(),
{
    let front = groups.drop_last();
    let before = methods_of(front);
    let last = groups.last().methods@;
    if g < front.len() {
        assert(front[g] == groups[g]);
        law_extensions_contribute_all_they_have(front, g, m);
        if 0 <= m < groups[g].methods.len() {
            let j = choose|j: int| 0 <= j < before.len() && before[j] == groups[g].methods@[m];
            assert(methods_of(groups)[j] == groups[g].methods@[m]);
        }
        if forall|k: int| 0 <= k < g ==> (#[trigger] groups[k]).doc is None {
            assert forall|k: int| 0 <= k < g implies (#[trigger] front[k]).doc is None by {
                assert(front[k] == groups[k]);
            }
        }
    } else {
        if 0 <= m < groups[g].methods.len() {
            assert(methods_of(groups)[before.len() + m] == groups[g].methods@[m]);
        }
        if forall|k: int| 0 <= k < g ==> (#[trigger] groups[k]).doc is None {
            lemma_no_doc(front, groups);
        }
    }
}

proof fn lemma_no_doc(front: Seq<FunctionGroup>, groups: Seq<FunctionGroup>)
    requires
        front.len() < groups.len(),
        forall|k: int| 0 <= k < front.len() ==> (#[trigger] front[k]) == groups[k],
        forall|k: int| 0 <= k < front.len() ==> (#[trigger] groups[k]).doc is None,
    ensures
        doc_of(None, front) is None,
    decreases front.len(),
{
    if front.len() > 0 {
        let less = front.drop_last();
        assert forall|k: int| 0 <= k < less.len() implies (#[trigger] less[k]) == groups[k] by {
            assert(less[k] == front[k]);
        }
        lemma_no_doc(less, groups);
        assert(front[front.len() - 1] == groups[front.len() - 1]);
    }
}

/// The package under development comes before any other of its name, and the rest of
/// the path leads from its root to the module.
pub proof fn law_own_package_comes_first(
    library: Library,
    workspace: Option<&PackageIndex>,
    path: Seq<Seq<char>>,
)
    requires
        path.len() > 0,
    ensures
        workspace is Some && workspace->0.name@ == path[0] ==> path_module(library, workspace, path)
            == submodule(workspace->0.root, path.skip(1)),
        (workspace is None || workspace->0.name@ != path[0]) && package_of(library, path[0]) is Some
            ==> path_module(library, workspace, path) == submodule(
            package_of(library, path[0])->0.root,
            path.skip(1),
        ),
        (workspace is None || workspace->0.name@ != path[0]) && package_of(library, path[0]) is None
            ==> path_module(library, workspace, path) is None,
{
}

/// Whatever is at the cursor decides what is shown, and over which range: a qualified
/// name, an occurrence that the file binds or does not, or a definition.
pub proof fn law_hover_shows_what_is_there(
    model: SemanticModel,
    library: Library,
    workspace: Option<&PackageIndex>,
    s: Seq<char>,
    offset: u32,
    k: int,
)
    ensures
        ({
            let reads = model.qualified_reads@;
            let idents = model.idents@;
            let bindings = model.bindings@;
            let no_read = forall|i: int|
                0 <= i < reads.len() ==> !at_name((#[trigger] reads[i]).range, offset);
            let no_ident = forall|i: int|
                0 <= i < idents.len() ==> !at_name((#[trigger] idents[i]).range, offset);
            let no_binding = forall|i: int|
                0 <= i < bindings.len() ==> !at_name((#[trigger] bindings[i]).def_range, offset);
            let answer = content_at(model, library, workspace, s, offset);
            &&& 0 <= k < reads.len() && at_name(reads[k].range, offset) && reads[k].path.len() > 0
                && (forall|i: int|
                0 <= i < k ==> !at_name((#[trigger] reads[i]).range, offset)) ==> {
                let path = reads[k].path.deep_view();
                let text = qualified_text(library, workspace, path.drop_last(), path.last());
                &&& text is Some ==> answer == Some((text->0, reads[k].range))
                &&& text is None ==> answer is None
            }
            &&& no_read && 0 <= k < idents.len() && at_name(idents[k].range, offset) && (forall|
                i: int,
            |
                0 <= i < k ==> !at_name((#[trigger] idents[i]).range, offset)) ==> {
                let free = free_text(model, library, workspace, s, idents[k].resolution);
                &&& idents[k].binding is Some ==> answer == Some(
                    (binding_text(s, bindings[idents[k].binding->0 as int]), idents[k].range),
                )
                &&& idents[k].binding is None && free is Some ==> answer == Some(
                    (free->0, idents[k].range),
                )
                &&& idents[k].binding is None && free is None ==> answer is None
            }
            &&& no_read && no_ident && 0 <= k < bindings.len() && at_name(
                bindings[k].def_range,
                offset,
            ) && (forall|i: int|
                0 <= i < k ==> !at_name((#[trigger] bindings[i]).def_range, offset)) ==> answer
                == Some((binding_text(s, bindings[k]), bindings[k].def_range))
            &&& no_read && no_ident && no_binding ==> answer is None
        }),
{
    let reads = model.qualified_reads@;
    let idents = model.idents@;
    let bindings = model.bindings@;
    lemma_first_index(reads, read_spans(offset));
    lemma_first_index(idents, ident_spans(offset));
    lemma_first_index(bindings, binding_spans(offset));
    let r = first_index(reads, read_spans(offset));
    let i = first_index(idents, ident_spans(offset));
    let b = first_index(bindings, binding_spans(offset));
    if r < reads.len() {
        assert(at_name(reads[r].range, offset));
    }
    if i < idents.len() {
        assert(at_name(idents[i].range, offset));
    }
    if b < bindings.len() {
        assert(at_name(bindings[b].def_range, offset));
    }
    if 0 <= k < reads.len() && at_name(reads[k].range, offset) {
        assert(read_spans(offset)(reads[k]));
    }
    if 0 <= k < idents.len() && at_name(idents[k].range, offset) {
        assert(ident_spans(offset)(idents[k]));
    }
    if 0 <= k < bindings.len() && at_name(bindings[k].def_range, offset) {
        assert(binding_spans(offset)(bindings[k]));
    }
}

/// In the code of a docstring's fence the hover is what the code shows, over where it
/// stands in the source; where that is nothing, it is what the file itself shows.
pub proof fn law_fences_come_before_the_file(
    model: SemanticModel,
    library: Library,
    workspace: Option<&PackageIndex>,
    docs: Seq<DocText>,
    names: Option<&FenceNames>,
    s: Seq<char>,
    offset: u32,
)
    ensures
        ({
            let answer = hover_at(model, library, workspace, docs, names, s, offset);
            let file = content_at(model, library, workspace, s, offset);
            &&& names is None || code_at(docs, offset) is None ==> answer == file
            &&& match (code_at(docs, offset), names) {
                (Some((at, code)), Some(names)) => {
                    let inside = content_at(names.model, library, workspace, code.text, code.offset);
                    match inside {
                        Some((text, range)) => match fence_source(
                            docs[at].map,
                            code.range,
                            range,
                        ) {
                            Some(source) => answer == Some((text, source)),
                            None => answer == file,
                        },
                        None => true,
                    }
                },
                _ => true,
            }
        }),
{
}

} // verus!
