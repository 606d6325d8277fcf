//! From names to the modules of the library that define them.

use vstd::prelude::*;

use crate::index::{package_of, resolve_submodule, submodule, Library, ModuleIndex, PackageIndex};
use crate::semantic::{LoadKind, ModuleLoad};
use crate::strings::same_text;

verus! {

/// The module that a whole-module `using` brings in under a name, with its
/// package: the load names it last, and its first component is a package that
/// leads to it.
pub open spec fn using_module(library: Library, load: ModuleLoad, module: Seq<char>) -> Option<
    (PackageIndex, ModuleIndex),
> {
    let path = load.components.deep_view();
    if load.kind == LoadKind::Using && load.whole && path.len() > 0 && path.last() == module {
        match package_of(library, path[0]) {
            Some(package) => match submodule(package.root, path.skip(1)) {
                Some(found) => Some((package, found)),
                None => None,
            },
            None => None,
        }
    } else {
        None
    }
}

/// The module that a whole-module `using` brings in under the name `module`, with
/// its package.
pub fn loaded_module<'l>(library: &'l Library, load: &ModuleLoad, module: &str) -> (r: Option<
    (&'l PackageIndex, &'l ModuleIndex),
>)
    ensures
        match r {
            Some((package, found)) => using_module(*library, *load, module@) == Some(
                (*package, *found),
            ),
            None => using_module(*library, *load, module@) is None,
        },
{
    let using = match load.kind {
        LoadKind::Using => true,
        LoadKind::Import => false,
    };
    let count = load.components.len();
    proof {
        let path = load.components.deep_view();
        if path.len() > 0 {
            assert(path.last() == load.components@[count - 1]@);
            assert(path[0] == load.components@[0]@);
        }
    }
    if !using || !load.whole || count == 0 || !same_text(
        load.components[count - 1].as_str(),
        module,
    ) {
        return None;
    }
    let package = match library.package(load.components[0].as_str()) {
        Some(package) => package,
        None => {
            return None;
        },
    };
    match resolve_submodule(&package.root, &load.components, 1) {
        Some(found) => Some((package, found)),
        None => None,
    }
}

/// A `using` of a whole module brings it in under the last name of its path, where the
/// first is a package that leads to it; an `import` brings in none, and neither does a
/// `using` of single names.
pub proof fn law_using_brings_in_the_whole_module(
    library: Library,
    load: ModuleLoad,
    module: Seq<char>,
)
    ensures
        ({
            let path = load.components.deep_view();
            let named = load.kind == LoadKind::Using && load.whole && path.len() > 0
                && path[path.len() - 1] == module;
            &&& !named ==> using_module(library, load, module) is None
            &&& named ==> match package_of(library, path[0]) {
                Some(package) => match submodule(package.root, path.skip(1)) {
                    Some(found) => using_module(library, load, module) == Some((package, found)),
                    None => using_module(library, load, module) is None,
                },
                None => using_module(library, load, module) is None,
            }
        }),
{
}

} // verus!
