//! The decisions of the module-graph resolver: which canonical files have been
//! taken already, where an import's file is looked for, when the nesting
//! budget stops a traversal, and how results are gathered. The file system and
//! the scheduling of the work stay with the caller.
use vstd::prelude::*;
use crate::ast::{Import, Module};
use crate::parser::{module_at, module_parsed, parse_module};

verus! {

/// An error met while gathering the modules of a set of files. Paths are
/// held as text; `referenced_by` is the importing file, absent for a root.
#[derive(Clone, PartialEq, Eq, Debug)]
pub enum ParseError {
    /// The file could not be read.
    IoError { file: String, referenced_by: Option<String>, error: String },
    /// The file's canonical path could not be found.
    PathError { file: String, referenced_by: Option<String>, error: String },
    /// The file imports others, and the nesting budget is used up.
    MaxImportNestingReached { file: String, referenced_by: Option<String> },
    /// No candidate location holds the imported file.
    FileNotFound { file: String, referenced_by: Option<String> },
    /// The file does not match the grammar.
    SyntaxError { file: String, referenced_by: Option<String> },
}

/// The result of registering `p` in `v`: whether it was new, and the
/// registrations after.
pub open spec fn registered(v: Seq<Seq<char>>, p: Seq<char>) -> (bool, Seq<Seq<char>>) {
    if v.contains(p) {
        (false, v)
    } else {
        (true, v.push(p))
    }
}

/// The canonical paths of the files taken so far, each once, in the order
/// they were taken.
pub struct Visited {
    paths: Vec<String>,
}

impl Visited {
    pub closed spec fn view(&self) -> Seq<Seq<char>> {
        self.paths@.map_values(|p: String| p@)
    }

    /// No path is registered twice.
    pub closed spec fn wf(&self) -> bool {
        self@.no_duplicates()
    }

    pub fn new() -> (r: Visited)
        ensures
            r.wf(),
            r@ == Seq::<Seq<char>>::empty(),
    {
        let r = Visited { paths: Vec::new() };
        assert(r@ =~= Seq::<Seq<char>>::empty());
        r
    }

    pub fn len(&self) -> (n: usize)
        ensures
            n == self@.len(),
    {
        self.paths.len()
    }

    /// Whether `path` has been taken.
    pub fn contains(&self, path: &String) -> (r: bool)
        ensures
            r == self@.contains(path@),
    {
        let mut i: usize = 0;
        while i < self.paths.len()
            invariant
                i <= self.paths.len(),
                forall|k: int| 0 <= k < i ==> self@[k] != path@,
            decreases self.paths.len() - i,
        {
            if self.paths[i] == *path {
                assert(self@[i as int] == path@);
                return true;
            }
            i = i + 1;
        }
        false
    }

    /// Takes `path` if it has not been taken: gives whether it was new. A
    /// second registration of the same path gives `false`, so each file is
    /// processed at most once.
    pub fn try_register(&mut self, path: &String) -> (fresh: bool)
        requires
            old(self).wf(),
        ensures
            final(self).wf(),
            (fresh, final(self)@) == registered(old(self)@, path@),
    {
        if self.contains(path) {
            return false;
        }
        self.paths.push(path.clone());
        assert(self@ =~= old(self)@.push(path@));
        true
    }
}

/// Registering a path twice: the second registration finds it taken and
/// changes nothing, and the registrations hold the path exactly once
/// (they hold it, and hold no path twice), whatever was there before.
pub proof fn lemma_register_once(v: Seq<Seq<char>>, p: Seq<char>)
    requires
        v.no_duplicates(),
    ensures
        registered(registered(v, p).1, p).0 == false,
        registered(registered(v, p).1, p).1 == registered(v, p).1,
        registered(v, p).1.contains(p),
        registered(v, p).1.no_duplicates(),
{
    let w = registered(v, p).1;
    if !v.contains(p) {
        assert(w[v.len() as int] == p);
        assert forall|a: int, b: int| 0 <= a < w.len() && 0 <= b < w.len() && a != b implies w[a]
            != w[b] by {
            if a < v.len() && b < v.len() {
                assert(w[a] == v[a] && w[b] == v[b]);
            } else if a < v.len() {
                assert(w[a] == v[a]);
            } else {
                assert(w[b] == v[b]);
            }
        }
    }
}

/// The registrations after `claim` has registered the canonical paths `ps`
/// in turn, starting from `v`.
pub open spec fn register_all(v: Seq<Seq<char>>, ps: Seq<Seq<char>>) -> Seq<Seq<char>>
    decreases ps.len(),
{
    if ps.len() == 0 {
        v
    } else {
        registered(register_all(v, ps.drop_last()), ps.last()).1
    }
}

/// How many of the registrations of `ps` in turn, starting from `v`, found
/// `p` new, so that `claim` handed it on to be read and parsed.
pub open spec fn fresh_count(v: Seq<Seq<char>>, ps: Seq<Seq<char>>, p: Seq<char>) -> nat
    decreases ps.len(),
{
    if ps.len() == 0 {
        0
    } else {
        fresh_count(v, ps.drop_last(), p) + if ps.last() == p && registered(
            register_all(v, ps.drop_last()),
            p,
        ).0 {
            1nat
        } else {
            0nat
        }
    }
}

proof fn lemma_register_all(v: Seq<Seq<char>>, ps: Seq<Seq<char>>, p: Seq<char>)
    requires
        v.no_duplicates(),
        !v.contains(p),
    ensures
        register_all(v, ps).no_duplicates(),
        fresh_count(v, ps, p) == if register_all(v, ps).contains(p) {
            1nat
        } else {
            0nat
        },
        forall|k: int| 0 <= k < ps.len() ==> register_all(v, ps).contains(#[trigger] ps[k]),
    decreases ps.len(),
{
    if ps.len() > 0 {
        let prev = ps.drop_last();
        lemma_register_all(v, prev, p);
        let w = register_all(v, prev);
        let x = ps.last();
        lemma_register_once(w, x);
        let w2 = registered(w, x).1;
        assert forall|k: int| 0 <= k < ps.len() implies w2.contains(#[trigger] ps[k]) by {
            if k < prev.len() {
                assert(prev[k] == ps[k]);
                assert(w.contains(ps[k]));
                if !w.contains(x) {
                    let j = choose|j: int| 0 <= j < w.len() && w[j] == ps[k];
                    assert(w2[j] == ps[k]);
                }
            }
        }
        if !w.contains(x) && x != p {
            assert(w2.contains(p) == w.contains(p)) by {
                if w2.contains(p) {
                    let j = choose|j: int| 0 <= j < w2.len() && w2[j] == p;
                    assert(j < w.len());
                    assert(w[j] == p);
                }
                if w.contains(p) {
                    let j = choose|j: int| 0 <= j < w.len() && w[j] == p;
                    assert(w2[j] == p);
                }
            }
        }
    }
}

/// Each file is processed once: when `claim` registers the canonical paths
/// `ps` in turn, in any order and with any repeats (a file imported twice, or
/// a cycle of imports), each of them is found new exactly once, so it is read
/// and parsed once, and the registrations hold no path twice.
pub proof fn lemma_each_file_once(ps: Seq<Seq<char>>, p: Seq<char>)
    requires
        ps.contains(p),
    ensures
        fresh_count(Seq::empty(), ps, p) == 1,
        register_all(Seq::empty(), ps).no_duplicates(),
{
    let e = Seq::<Seq<char>>::empty();
    lemma_register_all(e, ps, p);
    let k = choose|k: int| 0 <= k < ps.len() && ps[k] == p;
    assert(register_all(e, ps).contains(ps[k]));
}

/// Whether a unit of work that parsed a module with `import_count` imports
/// must stop at the nesting bound, its remaining budget being `budget`.
pub open spec fn nesting_exceeded(import_count: nat, budget: nat) -> bool {
    import_count > 0 && budget == 0
}

/// Whether the imports of a module may be followed with the remaining nesting
/// budget `budget`; where they may, each import is processed with one less.
pub fn may_follow_imports(module: &Module, budget: usize) -> (ok: bool)
    ensures
        ok == !nesting_exceeded(module.imports@.len(), budget as nat),
{
    module.imports.len() == 0 || budget > 0
}

/// The nesting budget an import is processed with, `budget` being that of
/// the importing file.
pub open spec fn child_budget(budget: nat) -> nat {
    (budget - 1) as nat
}

/// In a chain of files where file `k` imports file `k + 1` for `k < n`, and
/// file `k` is processed with `budget`: the first file that stops at the
/// nesting bound, if any. A file stops where `after_read` gives
/// `MaxImportNestingReached`, and each import gets the budget that
/// `child_jobs` hands it.
pub open spec fn chain_stop(k: nat, n: nat, budget: nat) -> Option<nat>
    decreases n - k,
{
    let imports: nat = if k < n {
        1
    } else {
        0
    };
    if nesting_exceeded(imports, budget) {
        Some(k)
    } else if k < n {
        chain_stop(k + 1, n, child_budget(budget))
    } else {
        None
    }
}

proof fn lemma_chain_stop_from(k: nat, n: nat, budget: nat)
    requires
        k <= n,
    ensures
        budget < n - k ==> chain_stop(k, n, budget) == Some((k + budget) as nat),
        budget >= n - k ==> chain_stop(k, n, budget) is None,
    decreases n - k,
{
    if k < n && budget > 0 {
        lemma_chain_stop_from(k + 1, n, (budget - 1) as nat);
    }
}

/// Nesting bound on a chain of `n` nested imports, as `after_read` and
/// `child_jobs` process it: with a budget of `n - 1` the traversal stops at
/// the last file that imports, and with a budget of `n` it follows the whole
/// chain.
pub proof fn lemma_nesting_bound(n: nat)
    requires
        n >= 1,
    ensures
        chain_stop(0, n, (n - 1) as nat) == Some((n - 1) as nat),
        chain_stop(0, n, n) is None,
{
    lemma_chain_stop_from(0, n, (n - 1) as nat);
    lemma_chain_stop_from(0, n, n);
}

/// The uris of the imports that name a file, in order.
pub open spec fn file_uris(imports: Seq<Import>) -> Seq<Seq<char>>
    decreases imports.len(),
{
    if imports.len() == 0 {
        Seq::empty()
    } else {
        let prev = file_uris(imports.drop_last());
        if imports.last().uri@.len() > 0 {
            prev.push(imports.last().uri@)
        } else {
            prev
        }
    }
}

/// The uris of the imports of `module` that name a file (those not empty), in
/// declaration order.
pub fn import_uris(module: &Module) -> (r: Vec<String>)
    ensures
        r@.map_values(|u: String| u@) == file_uris(module.imports@),
{
    let mut r: Vec<String> = Vec::new();
    let mut i: usize = 0;
    while i < module.imports.len()
        invariant
            i <= module.imports.len(),
            r@.map_values(|u: String| u@) == file_uris(module.imports@.take(i as int)),
        decreases module.imports.len() - i,
    {
        let imp = &module.imports[i];
        assert(module.imports@.take(i + 1).drop_last() =~= module.imports@.take(i as int));
        if imp.uri.as_str().unicode_len() > 0 {
            r.push(imp.uri.clone());
            assert(r@.map_values(|u: String| u@) =~= file_uris(module.imports@.take(i as int)).push(
                imp.uri@,
            ));
        }
        i = i + 1;
    }
    assert(module.imports@.take(i as int) =~= module.imports@);
    r
}

/// Whether a path is absolute, by the Unix rule: it starts with `/`.
pub open spec fn is_absolute(p: Seq<char>) -> bool {
    p.len() > 0 && p[0] == '/'
}

/// The path of `uri` inside directory `dir`.
pub open spec fn joined(dir: Seq<char>, uri: Seq<char>) -> Seq<char> {
    if dir.len() == 0 {
        uri
    } else if dir.last() == '/' {
        dir + uri
    } else {
        dir + seq!['/'] + uri
    }
}

/// Where the file of `uri`, imported by a file in `current_dir`, is looked
/// for, in order: an absolute uri as it stands; else inside the importing
/// file's directory, then inside each search directory.
pub open spec fn candidates_of(
    uri: Seq<char>,
    current_dir: Option<Seq<char>>,
    dirs: Seq<Seq<char>>,
) -> Seq<Seq<char>> {
    if is_absolute(uri) {
        seq![uri]
    } else {
        let own = match current_dir {
            Some(d) => seq![joined(d, uri)],
            None => Seq::empty(),
        };
        own + dirs.map_values(|d: Seq<char>| joined(d, uri))
    }
}

/// The first of `cands` for which `found` holds.
pub open spec fn first_found(cands: Seq<Seq<char>>, found: Seq<bool>) -> Option<Seq<char>>
    decreases cands.len(),
{
    if cands.len() == 0 || found.len() == 0 {
        None
    } else if found[0] {
        Some(cands[0])
    } else {
        first_found(cands.skip(1), found.skip(1))
    }
}

/// The characters of each string.
pub open spec fn texts_of(v: Seq<String>) -> Seq<Seq<char>> {
    v.map_values(|d: String| d@)
}

/// The characters of an optional directory.
pub open spec fn dir_of(d: Option<&str>) -> Option<Seq<char>> {
    match d {
        Some(d) => Some(d@),
        None => None,
    }
}

/// The path of `uri` inside directory `dir`.
pub fn join(dir: &str, uri: &str) -> (r: String)
    ensures
        r@ == joined(dir@, uri@),
{
    let n = dir.unicode_len();
    if n == 0 {
        String::from_str(uri)
    } else if dir.get_char(n - 1) == '/' {
        String::from_str(dir).concat(uri)
    } else {
        let r = String::from_str(dir).concat("/").concat(uri);
        proof {
            reveal_strlit("/");
            assert(r@ =~= dir@ + seq!['/'] + uri@);
        }
        r
    }
}

/// The locations where the file of an import is looked for, in the order
/// they are tried.
pub fn import_candidates(uri: &str, current_dir: Option<&str>, search_dirs: &Vec<String>) -> (r:
    Vec<String>)
    ensures
        texts_of(r@) == candidates_of(
            uri@,
            dir_of(current_dir),
            texts_of(search_dirs@),
        ),
{
    let ghost dirs = texts_of(search_dirs@);
    let mut r: Vec<String> = Vec::new();
    if uri.unicode_len() > 0 && uri.get_char(0) == '/' {
        r.push(String::from_str(uri));
        assert(texts_of(r@) =~= seq![uri@]);
        return r;
    }
    if let Some(d) = current_dir {
        r.push(join(d, uri));
    }
    let ghost own = texts_of(r@);
    let mut i: usize = 0;
    while i < search_dirs.len()
        invariant
            i <= search_dirs.len(),
            dirs == texts_of(search_dirs@),
            texts_of(r@) == own + dirs.take(i as int).map_values(
                |d: Seq<char>| joined(d, uri@),
            ),
        decreases search_dirs.len() - i,
    {
        let c = join(search_dirs[i].as_str(), uri);
        let ghost before = texts_of(r@);
        r.push(c);
        assert(texts_of(r@) =~= before.push(joined(dirs[i as int], uri@)));
        assert(dirs.take(i + 1).map_values(|d: Seq<char>| joined(d, uri@)) =~= dirs.take(
            i as int,
        ).map_values(|d: Seq<char>| joined(d, uri@)).push(joined(dirs[i as int], uri@)));
        assert(texts_of(r@) =~= own + dirs.take(i + 1).map_values(
            |d: Seq<char>| joined(d, uri@),
        ));
        i = i + 1;
    }
    assert(dirs.take(i as int) =~= dirs);
    r
}

/// Resolves the uri of an import to a file: the first of its candidate
/// locations, as `import_candidates` lists them, that `is_file` marks as an
/// existing file; `None` where none is.
pub fn find_file(
    uri: &str,
    current_dir: Option<&str>,
    search_dirs: &Vec<String>,
    is_file: &Vec<bool>,
) -> (r: Option<String>)
    ensures
        match r {
            Some(p) => first_found(
                candidates_of(
                    uri@,
                    dir_of(current_dir),
                    texts_of(search_dirs@),
                ),
                is_file@,
            ) == Some(p@),
            None => first_found(
                candidates_of(
                    uri@,
                    dir_of(current_dir),
                    texts_of(search_dirs@),
                ),
                is_file@,
            ) is None,
        },
{
    let cands = import_candidates(uri, current_dir, search_dirs);
    let ghost cs = texts_of(cands@);
    let mut i: usize = 0;
    assert(cs.skip(0) =~= cs);
    assert(is_file@.skip(0) =~= is_file@);
    while i < cands.len() && i < is_file.len()
        invariant
            i <= cands.len(),
            cs == texts_of(cands@),
            cs == candidates_of(uri@, dir_of(current_dir), texts_of(search_dirs@)),
            cs.len() == cands.len(),
            i <= is_file.len(),
            first_found(cs, is_file@) == first_found(cs.skip(i as int), is_file@.skip(i as int)),
        decreases cands.len() - i,
    {
        if is_file[i] {
            assert(cs.skip(i as int)[0] == cs[i as int]);
            assert(is_file@.skip(i as int)[0] == is_file@[i as int]);
            assert(first_found(cs.skip(i as int), is_file@.skip(i as int)) == Some(cs[i as int]));
            let found = cands[i].clone();
            assert(found@ == cs[i as int]);
            return Some(found);
        }
        assert(cs.skip(i as int).skip(1) =~= cs.skip(i + 1));
        assert(is_file@.skip(i as int).skip(1) =~= is_file@.skip(i + 1));
        i = i + 1;
    }
    assert(cs.skip(i as int).len() == 0 || is_file@.skip(i as int).len() == 0);
    None
}

/// The modules of a list of results, in order.
pub open spec fn modules_of(rs: Seq<Result<(Module, String), ParseError>>) -> Seq<(Module, String)>
    decreases rs.len(),
{
    if rs.len() == 0 {
        Seq::empty()
    } else {
        match rs.last() {
            Ok(m) => modules_of(rs.drop_last()).push(m),
            Err(_) => modules_of(rs.drop_last()),
        }
    }
}

/// The errors of a list of results, in order.
pub open spec fn errors_of(rs: Seq<Result<(Module, String), ParseError>>) -> Seq<ParseError>
    decreases rs.len(),
{
    if rs.len() == 0 {
        Seq::empty()
    } else {
        match rs.last() {
            Ok(_) => errors_of(rs.drop_last()),
            Err(e) => errors_of(rs.drop_last()).push(e),
        }
    }
}

/// Parts the results of a traversal into its modules and its errors, each in
/// the order met.
pub fn split_results(results: Vec<Result<(Module, String), ParseError>>) -> (r: (
    Vec<(Module, String)>,
    Vec<ParseError>,
))
    ensures
        r.0@ == modules_of(results@),
        r.1@ == errors_of(results@),
{
    let mut mods: Vec<(Module, String)> = Vec::new();
    let mut errs: Vec<ParseError> = Vec::new();
    let mut i: usize = 0;
    let ghost all = results@;
    let mut results = results;
    let n = results.len();
    assert(results@ =~= all.subrange(0, all.len() as int));
    while results.len() > 0
        invariant
            i + results.len() == all.len(),
            all.len() == n,
            results@ =~= all.subrange(i as int, all.len() as int),
            mods@ == modules_of(all.take(i as int)),
            errs@ == errors_of(all.take(i as int)),
        decreases results.len(),
    {
        let x = results.remove(0);
        assert(x == all[i as int]);
        assert(all.take(i + 1).drop_last() =~= all.take(i as int));
        match x {
            Ok(m) => mods.push(m),
            Err(e) => errs.push(e),
        }
        i = i + 1;
        assert(results@ =~= all.subrange(i as int, all.len() as int));
    }
    assert(all.take(i as int) =~= all);
    (mods, errs)
}

/// What one file contributes to a traversal: its own module first, then
/// what each of its imports contributes, in import order.
pub type Outcome = Vec<Result<(Module, String), ParseError>>;

/// The characters of an optional path.
pub open spec fn opt_text(p: Option<String>) -> Option<Seq<char>> {
    match p {
        Some(s) => Some(s@),
        None => None,
    }
}

fn copy_path(p: &Option<String>) -> (r: Option<String>)
    ensures
        opt_text(r) == opt_text(*p),
{
    match p {
        Some(s) => Some(s.clone()),
        None => None,
    }
}

/// The first step of a file: `canonical` is what finding its canonical path
/// gave. A failure gives `PathError` for `filepath`; else the canonical path
/// is registered in `visited`, and handed back only if it was new. A file
/// seen before is dropped without a result.
pub fn claim(
    visited: &mut Visited,
    filepath: &String,
    referenced_by: &Option<String>,
    canonical: Result<String, String>,
) -> (r: Result<Option<String>, ParseError>)
    requires
        old(visited).wf(),
    ensures
        final(visited).wf(),
        match canonical {
            Err(e) => final(visited)@ == old(visited)@ && (r matches Err(
                ParseError::PathError { file, referenced_by: rb, error },
            ) && file@ == filepath@ && opt_text(rb) == opt_text(*referenced_by) && error == e),
            Ok(c) => final(visited)@ == registered(old(visited)@, c@).1 && if registered(
                old(visited)@,
                c@,
            ).0 {
                r matches Ok(Some(f)) && f == c
            } else {
                r matches Ok(None)
            },
        },
{
    match canonical {
        Err(error) => Err(
            ParseError::PathError {
                file: filepath.clone(),
                referenced_by: copy_path(referenced_by),
                error,
            },
        ),
        Ok(c) => {
            if visited.try_register(&c) {
                Ok(Some(c))
            } else {
                Ok(None)
            }
        },
    }
}

/// The step after reading the file `file`, whose text is `text` or the
/// message of the failure to read it: `IoError` where it could not be read,
/// `SyntaxError` where the text is no module, `MaxImportNestingReached` where
/// the module imports and `budget` is used up; else the module and the uris
/// of its imports that name a file, in order.
pub fn after_read(
    file: &String,
    referenced_by: &Option<String>,
    text: Result<String, String>,
    budget: usize,
) -> (r: Result<(Module, Vec<String>), ParseError>)
    ensures
        match text {
            Err(e) => r matches Err(ParseError::IoError { file: f, referenced_by: rb, error })
                && f@ == file@ && opt_text(rb) == opt_text(*referenced_by) && error == e,
            Ok(t) => match module_at(t@) {
                None => r matches Err(ParseError::SyntaxError { file: f, referenced_by: rb })
                    && f@ == file@ && opt_text(rb) == opt_text(*referenced_by),
                Some(m) => if nesting_exceeded(m.2.len(), budget as nat) {
                    r matches Err(ParseError::MaxImportNestingReached { file: f, referenced_by: rb })
                        && f@ == file@ && opt_text(rb) == opt_text(*referenced_by)
                } else {
                    r matches Ok((module, uris)) && module_parsed(t@, module) && uris@.map_values(
                        |u: String| u@,
                    ) == file_uris(module.imports@)
                },
            },
        },
{
    let t = match text {
        Err(error) => {
            return Err(
                ParseError::IoError {
                    file: file.clone(),
                    referenced_by: copy_path(referenced_by),
                    error,
                },
            )
        },
        Ok(t) => t,
    };
    let module = match parse_module(t.as_str()) {
        Ok((_, m)) => m,
        Err(_) => {
            return Err(
                ParseError::SyntaxError { file: file.clone(), referenced_by: copy_path(referenced_by) },
            )
        },
    };
    proof {
        crate::parser::lemma_module_imports(t@, module);
    }
    if !may_follow_imports(&module, budget) {
        return Err(
            ParseError::MaxImportNestingReached {
                file: file.clone(),
                referenced_by: copy_path(referenced_by),
            },
        );
    }
    let uris = import_uris(&module);
    Ok((module, uris))
}

/// The position of the first import whose file was not found.
pub open spec fn first_missing(found: Seq<Option<String>>) -> Option<int> {
    if exists|k: int| 0 <= k < found.len() && found[k] is None {
        Some(
            choose|k: int|
                0 <= k < found.len() && found[k] is None && forall|j: int|
                    0 <= j < k ==> found[j] is Some,
        )
    } else {
        None
    }
}

/// The step after looking for the files of the imports `uris`: `found[k]` is
/// the file found for `uris[k]`, if any. Where one is missing, the first such
/// gives `FileNotFound` and no import is followed; else each import becomes a
/// job, in order: its file, `file` as the importer, and one less budget.
pub fn child_jobs(file: &String, uris: &Vec<String>, found: &Vec<Option<String>>, budget: usize) -> (r:
    Result<Vec<(String, Option<String>, usize)>, ParseError>)
    requires
        uris.len() == found.len(),
        uris.len() > 0 ==> budget > 0,
    ensures
        (exists|k: int| 0 <= k < found.len() && found@[k] is None) ==> (r matches Err(
            ParseError::FileNotFound { file: f, referenced_by: Some(rb) },
        ) && rb@ == file@ && (first_missing(found@) matches Some(k) && f@ == uris@[k]@)),
        (forall|k: int| 0 <= k < found.len() ==> found@[k] is Some) ==> (r matches Ok(jobs)
            && jobs.len() == uris.len() && forall|j: int|
            0 <= j < jobs.len() ==> jobs@[j].0@ == found@[j]->0@ && opt_text(jobs@[j].1) == Some(
                file@,
            ) && jobs@[j].2 == child_budget(budget as nat)),
{
    let mut jobs: Vec<(String, Option<String>, usize)> = Vec::new();
    let mut i: usize = 0;
    while i < found.len()
        invariant
            i <= found.len(),
            uris.len() == found.len(),
            uris.len() > 0 ==> budget > 0,
            jobs.len() == i,
            forall|j: int| 0 <= j < i ==> found@[j] is Some,
            forall|j: int|
                0 <= j < i ==> jobs@[j].0@ == found@[j]->0@ && opt_text(jobs@[j].1) == Some(file@)
                    && jobs@[j].2 == child_budget(budget as nat),
        decreases found.len() - i,
    {
        match &found[i] {
            Some(f) => {
                jobs.push((f.clone(), Some(file.clone()), budget - 1));
            },
            None => {
                assert(found@[i as int] is None);
                assert(forall|j: int| 0 <= j < i ==> found@[j] is Some);
                assert(first_missing(found@) == Some(i as int)) by {
                    let k = choose|k: int|
                        0 <= k < found.len() && found@[k] is None && forall|j: int|
                            0 <= j < k ==> found@[j] is Some;
                    assert(0 <= k < found.len() && found@[k] is None && forall|j: int|
                        0 <= j < k ==> found@[j] is Some);
                    if k < i {
                        assert(found@[k] is Some);
                    }
                    if k > i {
                        assert(found@[i as int] is Some);
                    }
                }
                return Err(
                    ParseError::FileNotFound {
                        file: uris[i].clone(),
                        referenced_by: Some(file.clone()),
                    },
                );
            },
        }
        i = i + 1;
    }
    Ok(jobs)
}

/// The results of several traversals, one after the other.
pub open spec fn flat(children: Seq<Outcome>) -> Seq<Result<(Module, String), ParseError>>
    decreases children.len(),
{
    if children.len() == 0 {
        Seq::empty()
    } else {
        flat(children.drop_last()) + children.last()@
    }
}

/// What a file contributes: its own module with its path first, then what
/// each of its imports contributed, in import order.
pub fn merge_outcome(own: (Module, String), children: Vec<Outcome>) -> (r: Outcome)
    ensures
        r@ == seq![Ok(own)] + flat(children@),
{
    let ghost all = children@;
    let mut r: Outcome = Vec::new();
    r.push(Ok(own));
    let mut children = children;
    let mut i: usize = 0;
    let n = children.len();
    assert(children@ =~= all.subrange(0, all.len() as int));
    while children.len() > 0
        invariant
            i + children.len() == all.len(),
            all.len() == n,
            children@ =~= all.subrange(i as int, all.len() as int),
            r@ == seq![Ok(own)] + flat(all.take(i as int)),
        decreases children.len(),
    {
        let mut c = children.remove(0);
        assert(c == all[i as int]);
        assert(all.take(i + 1).drop_last() =~= all.take(i as int));
        r.append(&mut c);
        assert(r@ =~= seq![Ok(own)] + flat(all.take(i + 1)));
        i = i + 1;
        assert(children@ =~= all.subrange(i as int, all.len() as int));
    }
    assert(all.take(i as int) =~= all);
    r
}

} // verus!
