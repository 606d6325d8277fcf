//! The index of packages: what each module defines.

use vstd::prelude::*;

use crate::paths::FilePath;
use crate::search::{first_index, lemma_first_index, lemma_first_index_is};
use crate::strings::{same_text, same_texts};

verus! {

/// A stretch of a file in bytes.
#[derive(Clone, Copy, Debug, PartialEq, Eq, Structural)]
pub struct Span {
    pub start: u32,
    pub end: u32,
}

/// Where something is defined: a file within a package, and the place in it.
#[derive(Debug)]
pub struct DefLocation {
    pub file: String,
    pub range: Span,
}

/// A type as it is written.
#[derive(Debug)]
pub enum TypeExpr {
    Name { path: Vec<String> },
    Applied { base: Box<TypeExpr>, args: Vec<TypeExpr> },
    Union { members: Vec<TypeExpr> },
    Tuple { elems: Vec<TypeExpr> },
    TypeVar { name: String, lower: Option<Box<TypeExpr>>, upper: Option<Box<TypeExpr>> },
    Raw { text: String },
}

/// A parameter of a method or a macro.
#[derive(Debug)]
pub struct Param {
    pub name: Option<String>,
    pub type_annotation: Option<TypeExpr>,
    pub default: Option<String>,
    pub is_vararg: bool,
}

/// One method of a function.
#[derive(Debug)]
pub struct Method {
    pub params: Vec<Param>,
    pub keyword_params: Vec<Param>,
    pub return_type: Option<TypeExpr>,
    pub loc: DefLocation,
}

/// The methods of one function that a module defines.
#[derive(Debug)]
pub struct FunctionGroup {
    pub name: String,
    /// The module that the function belongs to, where the methods extend it.
    pub owner: Option<Vec<String>>,
    pub methods: Vec<Method>,
    pub doc: Option<String>,
}

/// What kind of type a definition introduces.
#[derive(Clone, Copy, Debug, PartialEq, Eq, Structural)]
pub enum TypeKind {
    Struct { mutable: bool },
    Abstract,
    Primitive,
}

/// A type that a module defines.
#[derive(Debug)]
pub struct TypeDef {
    pub name: String,
    pub kind: TypeKind,
    pub supertype: Option<TypeExpr>,
    pub doc: Option<String>,
    pub loc: DefLocation,
}

/// A constant that a module defines.
#[derive(Debug)]
pub struct ConstDef {
    pub name: String,
    pub value_repr: Option<String>,
    pub doc: Option<String>,
    pub loc: DefLocation,
}

/// A macro that a module defines; its name begins with `@`.
#[derive(Debug)]
pub struct MacroDef {
    pub name: String,
    pub params: Vec<Param>,
    pub doc: Option<String>,
    pub loc: DefLocation,
}

/// What a module defines.
#[derive(Debug)]
pub struct ModuleIndex {
    pub name: String,
    pub functions: Vec<FunctionGroup>,
    pub types: Vec<TypeDef>,
    pub consts: Vec<ConstDef>,
    pub macros: Vec<MacroDef>,
    pub submodules: Vec<ModuleIndex>,
    pub loc: DefLocation,
}

/// A package: its name and its root module.
#[derive(Debug)]
pub struct PackageIndex {
    pub name: String,
    pub root: ModuleIndex,
}

/// Where a package's sources are.
#[derive(Debug)]
pub struct PackageRoot {
    pub name: String,
    pub path: FilePath,
}

/// The packages that are known, and where the sources of some are.
#[derive(Debug)]
pub struct Library {
    pub packages: Vec<PackageIndex>,
    pub roots: Vec<PackageRoot>,
}

/// Something that is found by its name.
pub trait Named {
    spec fn named(&self) -> Seq<char>;

    fn name(&self) -> (r: &str)
        ensures
            r@ == self.named(),
    ;
}

impl Named for FunctionGroup {
    open spec fn named(&self) -> Seq<char> {
        self.name@
    }

    fn name(&self) -> (r: &str) {
        self.name.as_str()
    }
}

impl Named for TypeDef {
    open spec fn named(&self) -> Seq<char> {
        self.name@
    }

    fn name(&self) -> (r: &str) {
        self.name.as_str()
    }
}

impl Named for ConstDef {
    open spec fn named(&self) -> Seq<char> {
        self.name@
    }

    fn name(&self) -> (r: &str) {
        self.name.as_str()
    }
}

impl Named for MacroDef {
    open spec fn named(&self) -> Seq<char> {
        self.name@
    }

    fn name(&self) -> (r: &str) {
        self.name.as_str()
    }
}

impl Named for ModuleIndex {
    open spec fn named(&self) -> Seq<char> {
        self.name@
    }

    fn name(&self) -> (r: &str) {
        self.name.as_str()
    }
}

impl Named for PackageIndex {
    open spec fn named(&self) -> Seq<char> {
        self.name@
    }

    fn name(&self) -> (r: &str) {
        self.name.as_str()
    }
}

impl Named for PackageRoot {
    open spec fn named(&self) -> Seq<char> {
        self.name@
    }

    fn name(&self) -> (r: &str) {
        self.name.as_str()
    }
}

/// That an item has a name.
pub open spec fn has_name<T: Named>(name: Seq<char>) -> spec_fn(T) -> bool {
    |item: T| item.named() == name
}

/// The index of the first item with a name, or the length.
pub open spec fn name_index<T: Named>(items: Seq<T>, name: Seq<char>) -> int {
    first_index(items, has_name::<T>(name))
}

/// Whether an item has a name.
pub open spec fn holds_name<T: Named>(items: Seq<T>, name: Seq<char>) -> bool {
    name_index(items, name) < items.len()
}

/// The index of the first item named `name`, or the length.
pub fn find_named<T: Named>(items: &Vec<T>, name: &str) -> (r: usize)
    ensures
        r == name_index(items@, name@),
        r <= items.len(),
{
    let ghost here = has_name::<T>(name@);
    let mut at: usize = 0;
    while at < items.len() && !same_text(items[at].name(), name)
        invariant
            at <= items.len(),
            here == has_name::<T>(name@),
            forall|k: int| 0 <= k < at ==> !here(#[trigger] items@[k]),
        decreases items.len() - at,
    {
        at = at + 1;
    }
    proof {
        lemma_first_index_is(items@, here, at as int);
    }
    at
}

/// The module that a path of names leads to.
pub open spec fn submodule(module: ModuleIndex, path: Seq<Seq<char>>) -> Option<ModuleIndex>
    decreases path.len(),
{
    if path.len() == 0 {
        Some(module)
    } else {
        let at = name_index(module.submodules@, path[0]);
        if at < module.submodules.len() {
            submodule(module.submodules@[at], path.drop_first())
        } else {
            None
        }
    }
}

/// The module that the names `path[from..]` lead to.
pub fn resolve_submodule<'m>(module: &'m ModuleIndex, path: &Vec<String>, from: usize) -> (r: Option<
    &'m ModuleIndex,
>)
    requires
        from <= path.len(),
    ensures
        match r {
            Some(found) => submodule(*module, path.deep_view().skip(from as int)) == Some(*found),
            None => submodule(*module, path.deep_view().skip(from as int)) is None,
        },
{
    let ghost all = path.deep_view();
    let ghost goal = submodule(*module, all.skip(from as int));
    let mut current: &'m ModuleIndex = module;
    let mut i: usize = from;
    while i < path.len()
        invariant
            i <= path.len(),
            all == path.deep_view(),
            goal == submodule(*module, all.skip(from as int)),
            submodule(*current, all.skip(i as int)) == goal,
        decreases path.len() - i,
    {
        let at = find_named(&current.submodules, path[i].as_str());
        proof {
            lemma_first_index(current.submodules@, has_name::<ModuleIndex>(all[i as int]));
            assert(all.skip(i as int)[0] == all[i as int]);
            assert(all.skip(i as int).drop_first() =~= all.skip(i + 1));
        }
        if at >= current.submodules.len() {
            return None;
        }
        current = &current.submodules[at];
        i = i + 1;
    }
    proof {
        assert(all.skip(i as int) =~= Seq::<Seq<char>>::empty());
    }
    Some(current)
}

/// The package of a name.
pub open spec fn package_of(library: Library, name: Seq<char>) -> Option<PackageIndex> {
    let at = name_index(library.packages@, name);
    if at < library.packages.len() {
        Some(library.packages@[at])
    } else {
        None
    }
}

/// Where the sources of a package are.
pub open spec fn root_of(library: Library, name: Seq<char>) -> Option<Seq<Seq<char>>> {
    let at = name_index(library.roots@, name);
    if at < library.roots.len() {
        Some(library.roots@[at].path.deep_view())
    } else {
        None
    }
}

impl Library {
    /// The package of a name.
    pub fn package(&self, name: &str) -> (r: Option<&PackageIndex>)
        ensures
            match r {
                Some(found) => package_of(*self, name@) == Some(*found),
                None => package_of(*self, name@) is None,
            },
    {
        let at = find_named(&self.packages, name);
        if at < self.packages.len() {
            Some(&self.packages[at])
        } else {
            None
        }
    }

    /// Where the sources of a package are.
    pub fn package_root(&self, name: &str) -> (r: Option<&FilePath>)
        ensures
            match r {
                Some(found) => root_of(*self, name@) == Some(found.deep_view()),
                None => root_of(*self, name@) is None,
            },
    {
        let at = find_named(&self.roots, name);
        if at < self.roots.len() {
            Some(&self.roots[at].path)
        } else {
            None
        }
    }
}

/// Whether a group of methods extends the function `name` of the module `owner`.
pub open spec fn extends(group: FunctionGroup, owner: Seq<Seq<char>>, name: Seq<char>) -> bool {
    &&& group.owner is Some
    &&& group.owner->0.deep_view() == owner
    &&& group.name@ == name
}

/// The groups of one module, among its first `n`, that extend a function.
pub open spec fn own_extensions(
    module: ModuleIndex,
    owner: Seq<Seq<char>>,
    name: Seq<char>,
    n: int,
) -> Seq<FunctionGroup>
    decreases n,
{
    if n <= 0 {
        Seq::empty()
    } else {
        let before = own_extensions(module, owner, name, n - 1);
        if extends(module.functions@[n - 1], owner, name) {
            before.push(module.functions@[n - 1])
        } else {
            before
        }
    }
}

/// The groups of a module and of all below it that extend a function, a module
/// before its submodules.
pub open spec fn extensions(
    module: ModuleIndex,
    owner: Seq<Seq<char>>,
    name: Seq<char>,
) -> Seq<FunctionGroup>
    decreases module, module.submodules.len() + 1,
{
    own_extensions(module, owner, name, module.functions.len() as int) + lower_extensions(
        module,
        owner,
        name,
        module.submodules.len() as int,
    )
}

/// The groups of the first `n` submodules, and of all below them, that extend a
/// function.
pub open spec fn lower_extensions(
    module: ModuleIndex,
    owner: Seq<Seq<char>>,
    name: Seq<char>,
    n: int,
) -> Seq<FunctionGroup>
    decreases module, n,
{
    if n <= 0 || n > module.submodules.len() {
        Seq::empty()
    } else {
        lower_extensions(module, owner, name, n - 1) + extensions(
            module.submodules[n - 1],
            owner,
            name,
        )
    }
}

/// Whether references point at the groups of a sequence, one by one.
pub open spec fn points_at(refs: Seq<&FunctionGroup>, groups: Seq<FunctionGroup>) -> bool {
    &&& refs.len() == groups.len()
    &&& forall|i: int| 0 <= i < refs.len() ==> *(#[trigger] refs[i]) == groups[i]
}

fn push_extensions<'m>(
    module: &'m ModuleIndex,
    owner: &Vec<String>,
    name: &str,
    out: &mut Vec<&'m FunctionGroup>,
)
    ensures
        final(out).len() == old(out).len() + extensions(
            *module,
            owner.deep_view(),
            name@,
        ).len(),
        forall|i: int| 0 <= i < old(out).len() ==> #[trigger] final(out)@[i] == old(out)@[i],
        forall|i: int|
            old(out).len() <= i < final(out).len() ==> *(#[trigger] final(out)@[i]) == extensions(
                *module,
                owner.deep_view(),
                name@,
            )[i - old(out).len()],
    decreases *module,
{
    let ghost start = out@;
    let ghost o = owner.deep_view();
    let mut i: usize = 0;
    while i < module.functions.len()
        invariant
            i <= module.functions.len(),
            o == owner.deep_view(),
            out.len() == start.len() + own_extensions(*module, o, name@, i as int).len(),
            forall|k: int| 0 <= k < start.len() ==> #[trigger] out@[k] == start[k],
            forall|k: int|
                start.len() <= k < out.len() ==> *(#[trigger] out@[k]) == own_extensions(
                    *module,
                    o,
                    name@,
                    i as int,
                )[k - start.len()],
        decreases module.functions.len() - i,
    {
        let group = &module.functions[i];
        i = i + 1;
        let matches = match &group.owner {
            Some(of) => same_texts(of, owner) && same_text(group.name.as_str(), name),
            None => false,
        };
        if matches {
            out.push(group);
        }
    }
    let ghost own = own_extensions(*module, o, name@, i as int);
    let mut j: usize = 0;
    while j < module.submodules.len()
        invariant
            j <= module.submodules.len(),
            o == owner.deep_view(),
            own == own_extensions(*module, o, name@, module.functions.len() as int),
            out.len() == start.len() + own.len() + lower_extensions(
                *module,
                o,
                name@,
                j as int,
            ).len(),
            forall|k: int| 0 <= k < start.len() ==> #[trigger] out@[k] == start[k],
            forall|k: int|
                start.len() <= k < out.len() ==> *(#[trigger] out@[k]) == (own
                    + lower_extensions(*module, o, name@, j as int))[k - start.len()],
        decreases module.submodules.len() - j,
    {
        let ghost before = out@;
        let ghost lower = lower_extensions(*module, o, name@, j as int);
        push_extensions(&module.submodules[j], owner, name, out);
        proof {
            let more = extensions(module.submodules[j as int], o, name@);
            let after = lower_extensions(*module, o, name@, j + 1);
            assert(after == lower + more);
            assert forall|k: int| start.len() <= k < out.len() implies *(#[trigger] out@[k]) == (
            own + after)[k - start.len()] by {
                if k < before.len() {
                    assert(out@[k] == before[k]);
                }
            }
        }
        j = j + 1;
    }
}

/// The groups of `module` and of all below it that extend the function `name` of
/// the module `owner`.
pub fn extension_groups<'m>(module: &'m ModuleIndex, owner: &Vec<String>, name: &str) -> (r: Vec<
    &'m FunctionGroup,
>)
    ensures
        points_at(r@, extensions(*module, owner.deep_view(), name@)),
{
    let mut out: Vec<&'m FunctionGroup> = Vec::new();
    push_extensions(module, owner, name, &mut out);
    out
}

/// Whether no item has a name.
pub open spec fn nothing_named<T: Named>(items: Seq<T>, name: Seq<char>) -> bool {
    forall|k: int| 0 <= k < items.len() ==> (#[trigger] items[k]).named() != name
}

/// Whether item `i` is the first of its name.
pub open spec fn first_named<T: Named>(items: Seq<T>, name: Seq<char>, i: int) -> bool {
    &&& 0 <= i < items.len()
    &&& items[i].named() == name
    &&& forall|k: int| 0 <= k < i ==> (#[trigger] items[k]).named() != name
}

pub proof fn lemma_nothing_named<T: Named>(items: Seq<T>, name: Seq<char>)
    requires
        nothing_named(items, name),
    ensures
        !holds_name(items, name),
        name_index(items, name) == items.len(),
{
    let here = has_name::<T>(name);
    assert forall|k: int| 0 <= k < items.len() implies !here(#[trigger] items[k]) by {}
    lemma_first_index_is(items, here, items.len() as int);
}

pub proof fn lemma_first_named<T: Named>(items: Seq<T>, name: Seq<char>, i: int)
    requires
        first_named(items, name, i),
    ensures
        holds_name(items, name),
        name_index(items, name) == i,
{
    let here = has_name::<T>(name);
    assert forall|k: int| 0 <= k < i implies !here(#[trigger] items[k]) by {}
    lemma_first_index_is(items, here, i);
}


/// The package of a name is the first that bears it, and where the sources of a
/// package are is what the first entry of its name says; a name that none bears has
/// neither.
pub proof fn law_packages_are_found_by_name(library: Library, name: Seq<char>, i: int)
    ensures
        first_named(library.packages@, name, i) ==> package_of(library, name) == Some(
            library.packages@[i],
        ),
        nothing_named(library.packages@, name) ==> package_of(library, name) is None,
        first_named(library.roots@, name, i) ==> root_of(library, name) == Some(
            library.roots@[i].path.deep_view(),
        ),
        nothing_named(library.roots@, name) ==> root_of(library, name) is None,
{
    if first_named(library.packages@, name, i) {
        lemma_first_named(library.packages@, name, i);
    }
    if nothing_named(library.packages@, name) {
        lemma_nothing_named(library.packages@, name);
    }
    if first_named(library.roots@, name, i) {
        lemma_first_named(library.roots@, name, i);
    }
    if nothing_named(library.roots@, name) {
        lemma_nothing_named(library.roots@, name);
    }
}

/// A path leads from a module to itself where it is empty, and else through the first
/// submodule of its first name; a name that no submodule bears leads nowhere.
pub proof fn law_paths_lead_through_submodules(
    module: ModuleIndex,
    name: Seq<char>,
    rest: Seq<Seq<char>>,
    i: int,
)
    ensures
        submodule(module, Seq::empty()) == Some(module),
        first_named(module.submodules@, name, i) ==> submodule(module, seq![name] + rest)
            == submodule(module.submodules@[i], rest),
        nothing_named(module.submodules@, name) ==> submodule(module, seq![name] + rest) is None,
{
    let path = seq![name] + rest;
    assert(path.drop_first() =~= rest);
    if first_named(module.submodules@, name, i) {
        lemma_first_named(module.submodules@, name, i);
    }
    if nothing_named(module.submodules@, name) {
        lemma_nothing_named(module.submodules@, name);
    }
}

/// Paths compose: what leads on from where a path leads is what the longer path leads
/// to.
pub proof fn law_paths_compose(module: ModuleIndex, a: Seq<Seq<char>>, b: Seq<Seq<char>>)
    ensures
        submodule(module, a + b) == match submodule(module, a) {
            Some(inner) => submodule(inner, b),
            None => None,
        },
    decreases a.len(),
{
    if a.len() == 0 {
        assert(a + b =~= b);
    } else {
        let at = name_index(module.submodules@, a[0]);
        assert((a + b)[0] == a[0]);
        assert((a + b).drop_first() =~= a.drop_first() + b);
        if at < module.submodules.len() {
            law_paths_compose(module.submodules@[at], a.drop_first(), b);
        }
    }
}

/// Whether a group is below a module: one of its own, or of a module below it.
pub open spec fn holds_group(module: ModuleIndex, group: FunctionGroup) -> bool
    decreases module, module.submodules.len() + 1,
{
    module.functions@.contains(group) || holds_group_below(
        module,
        group,
        module.submodules.len() as int,
    )
}

/// Whether a group is below one of the first `n` submodules of a module.
pub open spec fn holds_group_below(module: ModuleIndex, group: FunctionGroup, n: int) -> bool
    decreases module, n,
{
    if n <= 0 || n > module.submodules.len() {
        false
    } else {
        holds_group(module.submodules[n - 1], group) || holds_group_below(module, group, n - 1)
    }
}

/// Every group below a module that extends a function is among its extensions.
pub proof fn law_extensions_hold_all_that_extends(
    module: ModuleIndex,
    owner: Seq<Seq<char>>,
    name: Seq<char>,
    group: FunctionGroup,
)
    requires
        holds_group(module, group),
        group.owner is Some && group.owner->0.deep_view() == owner,
        group.name@ == name,
    ensures
        extensions(module, owner, name).contains(group),
    decreases module, module.submodules.len() + 1,
{
    let own = own_extensions(module, owner, name, module.functions.len() as int);
    let lower = lower_extensions(module, owner, name, module.submodules.len() as int);
    if module.functions@.contains(group) {
        let k = choose|k: int| 0 <= k < module.functions.len() && module.functions@[k] == group;
        lemma_own_extension(module, owner, name, module.functions.len() as int, k);
        let j = choose|j: int| 0 <= j < own.len() && own[j] == group;
        assert((own + lower)[j] == group);
    } else {
        lemma_lower_extension(module, owner, name, group, module.submodules.len() as int);
        let j = choose|j: int| 0 <= j < lower.len() && lower[j] == group;
        assert((own + lower)[own.len() + j] == group);
    }
}

proof fn lemma_own_extension(
    module: ModuleIndex,
    owner: Seq<Seq<char>>,
    name: Seq<char>,
    n: int,
    k: int,
)
    requires
        0 <= k < n <= module.functions.len(),
        extends(module.functions@[k], owner, name),
    ensures
        own_extensions(module, owner, name, n).contains(module.functions@[k]),
    decreases n,
{
    let before = own_extensions(module, owner, name, n - 1);
    let after = own_extensions(module, owner, name, n);
    if k == n - 1 {
        assert(after[before.len() as int] == module.functions@[k]);
    } else {
        lemma_own_extension(module, owner, name, n - 1, k);
        let j = choose|j: int| 0 <= j < before.len() && before[j] == module.functions@[k];
        assert(after[j] == module.functions@[k]);
    }
}

proof fn lemma_lower_extension(
    module: ModuleIndex,
    owner: Seq<Seq<char>>,
    name: Seq<char>,
    group: FunctionGroup,
    n: int,
)
    requires
        0 <= n <= module.submodules.len(),
        holds_group_below(module, group, n),
        group.owner is Some && group.owner->0.deep_view() == owner,
        group.name@ == name,
    ensures
        lower_extensions(module, owner, name, n).contains(group),
    decreases module, n,
{
    let before = lower_extensions(module, owner, name, n - 1);
    let last = extensions(module.submodules[n - 1], owner, name);
    if holds_group(module.submodules[n - 1], group) {
        law_extensions_hold_all_that_extends(module.submodules[n - 1], owner, name, group);
        let j = choose|j: int| 0 <= j < last.len() && last[j] == group;
        assert((before + last)[before.len() + j] == group);
    } else {
        lemma_lower_extension(module, owner, name, group, n - 1);
        let j = choose|j: int| 0 <= j < before.len() && before[j] == group;
        assert((before + last)[j] == group);
    }
}

/// Whatever is among the extensions of a function extends it: its owner is the module
/// asked for, and its name the one asked for.
pub proof fn law_extensions_hold_nothing_else(
    module: ModuleIndex,
    owner: Seq<Seq<char>>,
    name: Seq<char>,
    i: int,
)
    requires
        0 <= i < extensions(module, owner, name).len(),
    ensures
        ({
            let group = extensions(module, owner, name)[i];
            group.owner is Some && group.owner->0.deep_view() == owner && group.name@ == name
        }),
    decreases module, module.submodules.len() + 1,
{
    let own = own_extensions(module, owner, name, module.functions.len() as int);
    if i < own.len() {
        lemma_own_extends(module, owner, name, module.functions.len() as int, i);
    } else {
        lemma_lower_extends(
            module,
            owner,
            name,
            module.submodules.len() as int,
            i - own.len(),
        );
    }
}

proof fn lemma_own_extends(
    module: ModuleIndex,
    owner: Seq<Seq<char>>,
    name: Seq<char>,
    n: int,
    i: int,
)
    requires
        0 <= i < own_extensions(module, owner, name, n).len(),
    ensures
        ({
            let group = own_extensions(module, owner, name, n)[i];
            group.owner is Some && group.owner->0.deep_view() == owner && group.name@ == name
        }),
    decreases n,
{
    let before = own_extensions(module, owner, name, n - 1);
    if i < before.len() {
        lemma_own_extends(module, owner, name, n - 1, i);
    }
}

proof fn lemma_lower_extends(
    module: ModuleIndex,
    owner: Seq<Seq<char>>,
    name: Seq<char>,
    n: int,
    i: int,
)
    requires
        0 <= i < lower_extensions(module, owner, name, n).len(),
    ensures
        ({
            let group = lower_extensions(module, owner, name, n)[i];
            group.owner is Some && group.owner->0.deep_view() == owner && group.name@ == name
        }),
    decreases module, n,
{
    let before = lower_extensions(module, owner, name, n - 1);
    if i < before.len() {
        lemma_lower_extends(module, owner, name, n - 1, i);
    } else {
        law_extensions_hold_nothing_else(
            module.submodules[n - 1],
            owner,
            name,
            i - before.len(),
        );
    }
}

} // verus!
