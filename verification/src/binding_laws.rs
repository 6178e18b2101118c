//! Which names of a file stand for a symbol that another file defines, said of
//! what the file imports.
use vstd::prelude::*;
use crate::text;
use crate::changes;
use crate::changes::{Bound, Family};
use crate::graph::ImportText;

verus! {

/// Does one set of bound names hold all that another does?
pub open spec fn holds_all(b: Bound, a: Bound) -> bool {
    &&& forall|x: Seq<char>| #[trigger] text::listed(a.direct, x) ==> text::listed(b.direct, x)
    &&& forall|x: Seq<char>| #[trigger] text::listed(a.modules, x) ==> text::listed(b.modules, x)
}

/// What is listed stays listed behind one more, and that one is.
proof fn lemma_push_listed(v: Seq<Seq<char>>, y: Seq<char>)
    ensures
        text::listed(v.push(y), y),
        forall|x: Seq<char>| #[trigger] text::listed(v, x) ==> text::listed(v.push(y), x),
{
    assert(v.push(y)[v.len() as int] == y);
    assert forall|x: Seq<char>| #[trigger] text::listed(v, x) implies text::listed(v.push(y), x) by {
        let i = choose|i: int| 0 <= i < v.len() && #[trigger] v[i] == x;
        assert(v.push(y)[i] == x);
    }
}

/// The names of an import only add to what is bound.
proof fn lemma_names_add(
    b: Bound,
    plain: Seq<Seq<char>>,
    module: Seq<char>,
    names: Seq<(Seq<char>, Seq<char>)>,
    symbol: Seq<char>,
    m: nat,
    n: nat,
)
    requires
        m <= n,
    ensures
        holds_all(
            changes::bind_names(b, plain, module, names, symbol, n),
            changes::bind_names(b, plain, module, names, symbol, m),
        ),
    decreases n - m,
{
    if m < n {
        lemma_names_add(b, plain, module, names, symbol, m, (n - 1) as nat);
        let rest = changes::bind_names(b, plain, module, names, symbol, (n - 1) as nat);
        let local = names[n - 1].0;
        lemma_push_listed(rest.direct, local);
        lemma_push_listed(rest.direct, symbol);
        lemma_push_listed(rest.modules, local);
        lemma_push_listed(rest.modules.push(local), module);
    }
}

/// The submodules of an import only add to what is bound.
proof fn lemma_submodules_add(
    b: Bound,
    file: Seq<char>,
    def_path: Seq<char>,
    module: Seq<char>,
    names: Seq<(Seq<char>, Seq<char>)>,
    m: nat,
    n: nat,
)
    requires
        m <= n,
    ensures
        holds_all(
            changes::bind_submodules(b, file, def_path, module, names, n),
            changes::bind_submodules(b, file, def_path, module, names, m),
        ),
    decreases n - m,
{
    if m < n {
        lemma_submodules_add(b, file, def_path, module, names, m, (n - 1) as nat);
        let rest = changes::bind_submodules(b, file, def_path, module, names, (n - 1) as nat);
        lemma_push_listed(rest.modules, names[n - 1].0);
    }
}

/// Imports only add to what is bound.
proof fn lemma_imports_add(
    b: Bound,
    plain: Seq<Seq<char>>,
    imports: Seq<ImportText>,
    file: Seq<char>,
    def_path: Seq<char>,
    symbol: Seq<char>,
    m: nat,
    n: nat,
)
    requires
        m <= n,
    ensures
        holds_all(
            changes::bind_imports(b, plain, imports, file, def_path, symbol, n),
            changes::bind_imports(b, plain, imports, file, def_path, symbol, m),
        ),
    decreases n - m,
{
    if m < n {
        lemma_imports_add(b, plain, imports, file, def_path, symbol, m, (n - 1) as nat);
        let rest = changes::bind_imports(
            b,
            plain,
            imports,
            file,
            def_path,
            symbol,
            (n - 1) as nat,
        );
        let import = imports[n - 1];
        lemma_names_add(rest, plain, import.module, import.names, symbol, 0, import.names.len());
        let own = if changes::names_module(def_path, file, import.module) {
            changes::bind_names(
                rest,
                plain,
                import.module,
                import.names,
                symbol,
                import.names.len(),
            )
        } else {
            rest
        };
        lemma_submodules_add(
            own,
            file,
            def_path,
            import.module,
            import.names,
            0,
            import.names.len(),
        );
    }
}

/// The file that defines a symbol calls it by its name.
pub proof fn law_the_defining_file_uses_the_name(
    imports: Seq<ImportText>,
    plain: Seq<Seq<char>>,
    file: Seq<char>,
    symbol: Seq<char>,
)
    ensures
        text::listed(changes::bound_by(imports, plain, file, file, symbol).direct, symbol),
{
    let own = Bound { direct: seq![symbol], modules: Seq::empty() };
    lemma_imports_add(own, plain, imports, file, file, symbol, 0, imports.len());
    assert(own.direct[0] == symbol);
    assert(text::listed(own.direct, symbol));
}

/// A file that imports from the symbol's module binds the symbol to the local
/// name that it imports it under, the module to a local name for all of it,
/// and with a star the symbol to its own name.
pub proof fn law_imports_of_the_module_bind(
    imports: Seq<ImportText>,
    plain: Seq<Seq<char>>,
    file: Seq<char>,
    def_path: Seq<char>,
    symbol: Seq<char>,
    i: int,
    j: int,
)
    requires
        0 <= i < imports.len(),
        0 <= j < imports[i].names.len(),
        changes::names_module(def_path, file, imports[i].module),
    ensures
        ({
            let b = changes::bound_by(imports, plain, file, def_path, symbol);
            let (local, name) = imports[i].names[j];
            &&& name == symbol ==> text::listed(b.direct, local)
            &&& name == "*"@ && symbol != "*"@ && local == "*"@ ==> text::listed(b.direct, symbol)
            &&& name == "*"@ && symbol != "*"@ && local != "*"@ ==> text::listed(b.modules, local)
        }),
{
    let (local, name) = imports[i].names[j];
    let import = imports[i];
    let own = Bound {
        direct: if file == def_path {
            seq![symbol]
        } else {
            Seq::empty()
        },
        modules: Seq::empty(),
    };
    let rest = changes::bind_imports(own, plain, imports, file, def_path, symbol, i as nat);
    let some = changes::bind_names(rest, plain, import.module, import.names, symbol, j as nat);
    lemma_push_listed(some.direct, local);
    lemma_push_listed(some.direct, symbol);
    lemma_push_listed(some.modules, local);
    lemma_push_listed(some.modules.push(local), import.module);
    lemma_names_add(
        rest,
        plain,
        import.module,
        import.names,
        symbol,
        (j + 1) as nat,
        import.names.len(),
    );
    let all = changes::bind_names(
        rest,
        plain,
        import.module,
        import.names,
        symbol,
        import.names.len(),
    );
    lemma_submodules_add(
        all,
        file,
        def_path,
        import.module,
        import.names,
        0,
        import.names.len(),
    );
    lemma_imports_add(
        own,
        plain,
        imports,
        file,
        def_path,
        symbol,
        (i + 1) as nat,
        imports.len(),
    );
    let one = changes::bind_names(rest, plain, import.module, import.names, symbol, (j + 1) as nat);
    let next = changes::bind_imports(own, plain, imports, file, def_path, symbol, (i + 1) as nat);
    let b = changes::bound_by(imports, plain, file, def_path, symbol);
    assert(holds_all(all, one));
    assert(changes::bind_submodules(all, file, def_path, import.module, import.names, 0) == all);
    assert(holds_all(next, all));
    assert(holds_all(b, next));
    if name == symbol {
        assert(one.direct == some.direct.push(local));
        assert(text::listed(one.direct, local));
        assert(text::listed(all.direct, local));
        assert(text::listed(next.direct, local));
    } else if name == "*"@ && local == "*"@ {
        assert(one.direct == some.direct.push(symbol));
        assert(text::listed(one.direct, symbol));
        assert(text::listed(all.direct, symbol));
        assert(text::listed(next.direct, symbol));
    } else if name == "*"@ {
        assert(text::listed(some.modules.push(local), local));
        assert(text::listed(one.modules, local));
        assert(text::listed(all.modules, local));
        assert(text::listed(next.modules, local));
    }
}

/// A plain import of a dotted module leaves what it holds to be written with
/// the whole path before it: that path is bound to the module.
pub proof fn law_a_plain_import_binds_the_whole_path(
    imports: Seq<ImportText>,
    plain: Seq<Seq<char>>,
    file: Seq<char>,
    def_path: Seq<char>,
    symbol: Seq<char>,
    i: int,
    j: int,
    head: Seq<char>,
    rest: Seq<char>,
)
    requires
        0 <= i < imports.len(),
        0 <= j < imports[i].names.len(),
        changes::names_module(def_path, file, imports[i].module),
        imports[i].module == head + seq!['.'] + rest,
        !head.contains('.'),
        head != "*"@,
        symbol != "*"@,
        imports[i].names[j] == (head, "*"@),
        text::listed(plain, imports[i].module),
    ensures
        text::listed(
            changes::bound_by(imports, plain, file, def_path, symbol).modules,
            imports[i].module,
        ),
{
    let import = imports[i];
    let module = import.module;
    let own = Bound {
        direct: if file == def_path {
            seq![symbol]
        } else {
            Seq::empty()
        },
        modules: Seq::empty(),
    };
    assert forall|k: int| 0 <= k < head.len() implies module[k] != '.' by {
        assert(module[k] == head[k]);
    }
    text::lemma_next_of_at(module, '.', 0, head.len() as int);
    assert(module.take(head.len() as int) =~= head);
    assert(head.len() != module.len());
    assert(changes::is_spelled_out(plain, module, head));
    let prior = changes::bind_imports(own, plain, imports, file, def_path, symbol, i as nat);
    let some = changes::bind_names(prior, plain, module, import.names, symbol, j as nat);
    lemma_push_listed(some.modules, head);
    lemma_push_listed(some.modules.push(head), module);
    lemma_names_add(
        prior,
        plain,
        module,
        import.names,
        symbol,
        (j + 1) as nat,
        import.names.len(),
    );
    let all = changes::bind_names(prior, plain, module, import.names, symbol, import.names.len());
    lemma_submodules_add(all, file, def_path, module, import.names, 0, import.names.len());
    lemma_imports_add(
        own,
        plain,
        imports,
        file,
        def_path,
        symbol,
        (i + 1) as nat,
        imports.len(),
    );
    let one = changes::bind_names(prior, plain, module, import.names, symbol, (j + 1) as nat);
    let next = changes::bind_imports(own, plain, imports, file, def_path, symbol, (i + 1) as nat);
    assert(one.modules == some.modules.push(head).push(module));
    assert(text::listed(one.modules, module));
    assert(text::listed(all.modules, module));
    assert(changes::bind_submodules(all, file, def_path, module, import.names, 0) == all);
    assert(text::listed(next.modules, module));
}

/// A Python file that imports the symbol's module from its package binds the
/// local name to the module.
pub proof fn law_an_imported_submodule_is_bound(
    imports: Seq<ImportText>,
    plain: Seq<Seq<char>>,
    file: Seq<char>,
    def_path: Seq<char>,
    symbol: Seq<char>,
    i: int,
    j: int,
)
    requires
        0 <= i < imports.len(),
        0 <= j < imports[i].names.len(),
        changes::family(file) == Some(Family::Python),
        imports[i].names[j].1 != "*"@,
        imports[i].module.len() > 0,
        imports[i].module.last() != '.',
        changes::names_module(
            def_path,
            file,
            imports[i].module + "."@ + imports[i].names[j].1,
        ),
    ensures
        text::listed(
            changes::bound_by(imports, plain, file, def_path, symbol).modules,
            imports[i].names[j].0,
        ),
{
    let import = imports[i];
    let module = import.module;
    let own = Bound {
        direct: if file == def_path {
            seq![symbol]
        } else {
            Seq::empty()
        },
        modules: Seq::empty(),
    };
    reveal_strlit(".");
    assert(!text::has_suffix(module, "."@)) by {
        if text::has_suffix(module, "."@) {
            assert(module.skip(module.len() - 1)[0] == module.last());
        }
    }
    let prior = changes::bind_imports(own, plain, imports, file, def_path, symbol, i as nat);
    let mid = if changes::names_module(def_path, file, module) {
        changes::bind_names(prior, plain, module, import.names, symbol, import.names.len())
    } else {
        prior
    };
    let some = changes::bind_submodules(mid, file, def_path, module, import.names, j as nat);
    lemma_push_listed(some.modules, import.names[j].0);
    lemma_submodules_add(
        mid,
        file,
        def_path,
        module,
        import.names,
        (j + 1) as nat,
        import.names.len(),
    );
    lemma_imports_add(
        own,
        plain,
        imports,
        file,
        def_path,
        symbol,
        (i + 1) as nat,
        imports.len(),
    );
    let one = changes::bind_submodules(
        mid,
        file,
        def_path,
        module,
        import.names,
        (j + 1) as nat,
    );
    let next = changes::bind_imports(own, plain, imports, file, def_path, symbol, (i + 1) as nat);
    assert(one.modules == some.modules.push(import.names[j].0));
    assert(text::listed(one.modules, import.names[j].0));
    assert(text::listed(next.modules, import.names[j].0));
}

/// Nothing is bound by imports of other modules: a file that neither defines
/// the symbol nor imports its module calls it by no name.
pub proof fn law_other_imports_bind_nothing(
    imports: Seq<ImportText>,
    plain: Seq<Seq<char>>,
    file: Seq<char>,
    def_path: Seq<char>,
    symbol: Seq<char>,
    b: Bound,
    n: nat,
)
    requires
        n <= imports.len(),
        forall|i: int|
            0 <= i < n ==> !changes::names_module(def_path, file, (#[trigger] imports[i]).module),
        changes::family(file) != Some(Family::Python) || forall|i: int, j: int|
            #![trigger imports[i].names[j]]
            0 <= i < n && 0 <= j < imports[i].names.len() ==> !changes::names_module(
                def_path,
                file,
                changes::within_module(imports[i].module, imports[i].names[j].1),
            ),
    ensures
        changes::bind_imports(b, plain, imports, file, def_path, symbol, n) == b,
    decreases n,
{
    if n > 0 {
        law_other_imports_bind_nothing(
            imports,
            plain,
            file,
            def_path,
            symbol,
            b,
            (n - 1) as nat,
        );
        let import = imports[n - 1];
        assert(!changes::names_module(def_path, file, imports[n - 1].module));
        lemma_no_submodules(b, file, def_path, import.module, import.names, import.names.len(),
            imports, n - 1);
    }
}

/// No submodule is bound where none is the symbol's module.
proof fn lemma_no_submodules(
    b: Bound,
    file: Seq<char>,
    def_path: Seq<char>,
    module: Seq<char>,
    names: Seq<(Seq<char>, Seq<char>)>,
    n: nat,
    imports: Seq<ImportText>,
    i: int,
)
    requires
        n <= names.len(),
        0 <= i < imports.len(),
        imports[i].module == module,
        imports[i].names == names,
        changes::family(file) != Some(Family::Python) || forall|j: int|
            0 <= j < n ==> !changes::names_module(
                def_path,
                file,
                changes::within_module(module, (#[trigger] imports[i].names[j]).1),
            ),
    ensures
        changes::bind_submodules(b, file, def_path, module, names, n) == b,
    decreases n,
{
    if n > 0 && changes::family(file) == Some(Family::Python) {
        lemma_no_submodules(b, file, def_path, module, names, (n - 1) as nat, imports, i);
        assert(!changes::names_module(
            def_path,
            file,
            changes::within_module(module, imports[i].names[n - 1].1),
        ));
    }
}

// ----------------------------------------------------------- module strings

/// A path with its extension has the rest for its stem.
proof fn lemma_stem(stem: Seq<char>, ext: Seq<char>)
    requires
        !ext.contains('.'),
    ensures
        changes::stem(stem + seq!['.'] + ext) == stem,
{
    let path = stem + seq!['.'] + ext;
    text::lemma_last_below(path, '.', path.len() as int);
    let at = stem.len() as int;
    assert(path[at] == '.');
    assert forall|k: int| at < k < path.len() implies path[k] != '.' by {
        assert(path[k] == ext[k - at - 1]);
    }
    assert(path.take(at) =~= stem);
}

/// A module written in dots names the file at the path that is the same with
/// slashes, wherever it is imported, and so does its tail behind a dot.
pub proof fn law_a_dotted_module_names_its_file(
    stem: Seq<char>,
    ext: Seq<char>,
    importing: Seq<char>,
    module: Seq<char>,
    above: Seq<char>,
)
    requires
        !ext.contains('.'),
        module.len() > 0,
        module[0] != '.',
        text::swapped(stem, '/', '.') == module || text::swapped(stem, '/', '.') == above
            + seq!['.'] + module,
    ensures
        changes::names_module(stem + seq!['.'] + ext, importing, module),
{
    lemma_stem(stem, ext);
    reveal_strlit("./");
    reveal_strlit("../");
    reveal_strlit(".");
    lemma_no_prefix(module, "./"@);
    lemma_no_prefix(module, "../"@);
    lemma_no_prefix(module, "."@);
    let dotted = text::swapped(stem, '/', '.');
    let tail = "."@ + module;
    if dotted != module {
        assert(dotted.skip(dotted.len() - tail.len()) =~= tail);
    }
}

/// A text that starts with another character does not start so.
proof fn lemma_no_prefix(s: Seq<char>, p: Seq<char>)
    requires
        p.len() > 0,
        s.len() > 0,
        s[0] != p[0],
    ensures
        !text::has_prefix(s, p),
{
    if text::has_prefix(s, p) {
        assert(s.take(p.len() as int)[0] == s[0]);
    }
}

/// Where the dots at the start of a text end.
proof fn lemma_no_dots(s: Seq<char>)
    requires
        s.len() > 0,
        s[0] != '.',
    ensures
        text::out_from(s, "."@, 0) == 0,
{
    reveal_strlit(".");
    assert(!"."@.contains(s[0]));
}

/// One dot before a name names the file of that name beside the importing
/// one.
pub proof fn law_a_dot_names_the_file_beside(
    dir: Seq<char>,
    file: Seq<char>,
    name: Seq<char>,
    ext: Seq<char>,
)
    requires
        dir.len() > 0,
        !file.contains('/'),
        name.len() > 0,
        !name.contains('.'),
        name[0] != '/',
        !ext.contains('.'),
    ensures
        changes::names_module(
            dir + seq!['/'] + name + seq!['.'] + ext,
            dir + seq!['/'] + file,
            seq!['.'] + name,
        ),
{
    let importing = dir + seq!['/'] + file;
    let module = seq!['.'] + name;
    lemma_stem(dir + seq!['/'] + name, ext);
    text::lemma_last_below(importing, '/', importing.len() as int);
    let at = dir.len() as int;
    assert(importing[at] == '/');
    assert forall|k: int| at < k < importing.len() implies importing[k] != '/' by {
        assert(importing[k] == file[k - at - 1]);
    }
    assert(importing.take(at) =~= dir);
    reveal_strlit("./");
    reveal_strlit("../");
    reveal_strlit(".");
    reveal_strlit("/");
    assert(name.contains(name[0]));
    assert(module[1] == name[0]);
    if text::has_prefix(module, "./"@) {
        assert(module.take(2)[1] == module[1]);
    }
    if text::has_prefix(module, "../"@) {
        assert(module.take(3)[1] == module[1]);
    }
    assert(module.take(1) =~= "."@);
    assert(module.skip(1) =~= name);
    lemma_no_dots(name);
    assert(name.skip(0) =~= name);
    assert(text::swapped(name, '.', '/') =~= name) by {
        assert forall|k: int| 0 <= k < name.len() implies name[k] != '.' by {
            assert(name.contains(name[k]));
        }
    }
    assert(dir + "/"@ + name =~= dir + seq!['/'] + name);
}

} // verus!
