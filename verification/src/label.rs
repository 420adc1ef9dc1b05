//! Labels: the forms in which a target names another, and the form in which a target is named.

use vstd::prelude::*;
use crate::error::{self, not_found, Error, ErrorView};
use crate::key::{self, ConfiguredTargetKey, KeyView, NodeKey, NodeKeyView};
use crate::seqs;
use crate::string_map::StringMap;
use crate::text::{self, copy_optional, split_once, strip_prefix};

verus! {

/// A repository beside the main one: where it lies, and the build file that is laid over it.
#[derive(Clone, PartialEq, Eq, Debug)]
pub struct ExternalRepo {
    pub root: String,
    pub build_file: Option<String>,
}

/// The repositories that are declared, by name.
pub struct ExternalRepos {
    repos: StringMap<ExternalRepo>,
}

impl View for ExternalRepos {
    type V = Map<Seq<char>, ExternalRepo>;

    closed spec fn view(&self) -> Map<Seq<char>, ExternalRepo> {
        self.repos@
    }
}

/// The repositories that a list of declarations makes. Of two with one name the later counts.
pub open spec fn declared_repos(pairs: Seq<(String, ExternalRepo)>) -> Map<Seq<char>, ExternalRepo>
    decreases pairs.len(),
{
    if pairs.len() == 0 {
        Map::empty()
    } else {
        declared_repos(pairs.drop_last()).insert(pairs.last().0@, pairs.last().1)
    }
}

impl ExternalRepos {
    /// No declared repository.
    pub fn empty() -> (r: Self)
        ensures
            r@ == Map::<Seq<char>, ExternalRepo>::empty(),
    {
        ExternalRepos { repos: StringMap::new() }
    }

    /// The declared repositories.
    pub fn from_pairs(pairs: Vec<(String, ExternalRepo)>) -> (r: Self)
        ensures
            r@ == declared_repos(pairs@),
    {
        let mut repos: StringMap<ExternalRepo> = StringMap::new();
        let ghost all = pairs@;
        for p in it: pairs
            invariant
                it.seq() == all,
                repos@ == declared_repos(all.take(it.index() as int)),
        {
            proof {
                let i = it.index() as int;
                assert(all.take(i + 1).drop_last() =~= all.take(i));
                assert(all.take(i + 1).last() == p);
            }
            repos.insert(p.0, p.1);
        }
        assert(all.take(all.len() as int) =~= all);
        ExternalRepos { repos }
    }

    /// Whether a repository is declared.
    pub fn contains(&self, name: &str) -> (r: bool)
        ensures
            r == self@.dom().contains(name@),
    {
        self.repos.get(name).is_some()
    }

    /// The repository of the given name.
    pub fn get(&self, name: &str) -> (r: Option<&ExternalRepo>)
        ensures
            match r {
                Some(repo) => self@.dom().contains(name@) && *repo == self@[name@],
                None => !self@.dom().contains(name@),
            },
    {
        self.repos.get(name)
    }
}

// ---- Naming another target ----

/// The failure that a label of no accepted form is answered with.
pub open spec fn label_form(detail: Seq<char>) -> ErrorView {
    ErrorView::Unsupported { what: "dep label form"@, detail }
}

/// The label of an external target, from what follows the `@`: the repository, the package in it
/// and the name.
pub open spec fn external_parts(rest: Seq<char>) -> Option<(Seq<char>, Seq<char>, Seq<char>)> {
    match text::cut(rest, "//"@) {
        None => None,
        Some((repo, behind)) => match text::cut(behind, ":"@) {
            None => None,
            Some((package, name)) => if repo.len() > 0 && name.len() > 0 {
                Some((repo, package, name))
            } else {
                None
            },
        },
    }
}

/// The package text of an external package.
pub open spec fn external_package(repo: Seq<char>, package: Seq<char>) -> Seq<char> {
    "@"@ + repo + "//"@ + package
}

/// Whether a package text is one of an external package: a repository behind `@`, then `//`.
pub open spec fn is_external(package: Seq<char>) -> bool {
    match text::after(package, "@"@) {
        None => false,
        Some(rest) => match text::cut(rest, "//"@) {
            None => false,
            Some((repo, _)) => repo.len() > 0,
        },
    }
}

/// The package and the name that a label stands for in a target of `package`:
/// `@repo//pkg:name` in a declared repository, `//pkg:name` in the main one, `:name` in the package
/// itself. Nothing else is a label; behind `//` in particular no external package can stand.
pub open spec fn labelled(
    package: Seq<char>,
    lbl: Seq<char>,
    repos: Set<Seq<char>>,
) -> Result<(Seq<char>, Seq<char>), ErrorView> {
    match text::after(lbl, "@"@) {
        Some(rest) => match external_parts(rest) {
            None => Err(label_form("expected '@repo//pkg:name', got '"@ + lbl + "'"@)),
            Some((repo, pkg, name)) => if repos.contains(repo) {
                Ok((external_package(repo, pkg), name))
            } else {
                Err(
                    ErrorView::NotFound {
                        what: "external repository"@,
                        detail: "undeclared repository '@"@ + repo + "' in dep label '"@ + lbl
                            + "' (fail-closed — no workspace fallback)"@,
                    },
                )
            },
        },
        None => match text::after(lbl, "//"@) {
            Some(rest) => match text::cut(rest, ":"@) {
                Some((pkg, name)) => if name.len() > 0 && !is_external(pkg) {
                    Ok((pkg, name))
                } else {
                    Err(label_form("expected //pkg:name, got '"@ + lbl + "'"@))
                },
                None => Err(label_form("expected //pkg:name, got '"@ + lbl + "'"@)),
            },
            None => match text::after(lbl, ":"@) {
                Some(name) => if name.len() > 0 {
                    Ok((package, name))
                } else {
                    Err(label_form("empty target name"@))
                },
                None => Err(
                    label_form(
                        "expected ':name', '//pkg:name', or '@repo//pkg:name', got '"@ + lbl + "'"@,
                    ),
                ),
            },
        },
    }
}

/// The key of the target that a label stands for in `parent`. The analysis dimensions are those of
/// the parent.
pub open spec fn dependency(parent: KeyView, lbl: Seq<char>, repos: Set<Seq<char>>) -> Result<
    KeyView,
    ErrorView,
> {
    match labelled(parent.package, lbl, repos) {
        Ok((package, name)) => Ok(
            KeyView {
                package,
                name,
                configuration: parent.configuration,
                exec_platform: parent.exec_platform,
                rule_transition: parent.rule_transition,
            },
        ),
        Err(e) => Err(e),
    }
}

/// The node that a label stands for in `parent`.
pub open spec fn dependency_node(parent: KeyView, lbl: Seq<char>, repos: Set<Seq<char>>) -> Result<
    NodeKeyView,
    ErrorView,
> {
    match dependency(parent, lbl, repos) {
        Ok(k) => Ok(key::target_node(k)),
        Err(e) => Err(e),
    }
}

/// Whether a package text is one of an external package.
fn names_repository(package: &str) -> (r: bool)
    ensures
        r == is_external(package@),
{
    match strip_prefix(package, "@") {
        None => false,
        Some(rest) => match split_once(rest, "//") {
            None => false,
            Some((repo, _)) => !repo.is_empty(),
        },
    }
}

/// The package and the name that a label stands for in a target of `package`.
fn parse_label(package: &str, lbl: &str, repos: &ExternalRepos) -> (r: Result<
    (String, String),
    Error,
>)
    ensures
        match r {
            Ok((p, n)) => labelled(package@, lbl@, repos@.dom()) == Ok::<
                (Seq<char>, Seq<char>),
                ErrorView,
            >((p@, n@)),
            Err(e) => labelled(package@, lbl@, repos@.dom()) == Err::<
                (Seq<char>, Seq<char>),
                ErrorView,
            >(e@),
        },
{
    if let Some(rest) = strip_prefix(lbl, "@") {
        if let Some((repo, behind)) = split_once(rest, "//") {
            if let Some((pkg, name)) = split_once(behind, ":") {
                if !repo.is_empty() && !name.is_empty() {
                    if !repos.contains(repo) {
                        return Err(
                            not_found(
                                "external repository",
                                "undeclared repository '@".to_owned().concat(repo).concat(
                                    "' in dep label '",
                                ).concat(lbl).concat("' (fail-closed — no workspace fallback)"),
                            ),
                        );
                    }
                    return Ok(
                        ("@".to_owned().concat(repo).concat("//").concat(pkg), name.to_owned()),
                    );
                }
            }
        }
        return Err(
            Error::Unsupported {
                what: "dep label form",
                detail: "expected '@repo//pkg:name', got '".to_owned().concat(lbl).concat("'"),
            },
        );
    }
    if let Some(rest) = strip_prefix(lbl, "//") {
        if let Some((pkg, name)) = split_once(rest, ":") {
            if !name.is_empty() && !names_repository(pkg) {
                return Ok((pkg.to_owned(), name.to_owned()));
            }
        }
        return Err(
            Error::Unsupported {
                what: "dep label form",
                detail: "expected //pkg:name, got '".to_owned().concat(lbl).concat("'"),
            },
        );
    }
    if let Some(name) = strip_prefix(lbl, ":") {
        if name.is_empty() {
            return Err(
                Error::Unsupported {
                    what: "dep label form",
                    detail: "empty target name".to_owned(),
                },
            );
        }
        return Ok((package.to_owned(), name.to_owned()));
    }
    Err(
        Error::Unsupported {
            what: "dep label form",
            detail: "expected ':name', '//pkg:name', or '@repo//pkg:name', got '".to_owned().concat(
                lbl,
            ).concat("'"),
        },
    )
}

/// The node that a label stands for in `parent`.
pub fn resolve_dep(parent: &ConfiguredTargetKey, lbl: &str, repos: &ExternalRepos) -> (r: Result<
    NodeKey,
    Error,
>)
    ensures
        error::outcome(r) == dependency_node(parent@, lbl@, repos@.dom()),
{
    let (package, name) = parse_label(&parent.package, lbl, repos)?;
    let k = ConfiguredTargetKey {
        package,
        name,
        configuration: copy_optional(&parent.configuration),
        exec_platform: copy_optional(&parent.exec_platform),
        rule_transition: copy_optional(&parent.rule_transition),
    };
    Ok(NodeKey::from_key(&k))
}

/// The nodes that some labels stand for in `parent`. The first that stands for none decides the
/// failure.
pub open spec fn dependency_nodes(
    parent: KeyView,
    labels: Seq<Seq<char>>,
    repos: Set<Seq<char>>,
) -> Result<Seq<NodeKeyView>, ErrorView>
    decreases labels.len(),
{
    if labels.len() == 0 {
        Ok(Seq::empty())
    } else {
        match dependency_nodes(parent, labels.drop_last(), repos) {
            Err(e) => Err(e),
            Ok(nodes) => match dependency_node(parent, labels.last(), repos) {
                Err(e) => Err(e),
                Ok(node) => Ok(nodes.push(node)),
            },
        }
    }
}

/// A failure among the first labels is the failure of all.
proof fn lemma_dependency_nodes_prefix(
    parent: KeyView,
    labels: Seq<Seq<char>>,
    repos: Set<Seq<char>>,
    n: int,
)
    requires
        0 <= n <= labels.len(),
        dependency_nodes(parent, labels.take(n), repos) is Err,
    ensures
        dependency_nodes(parent, labels, repos) == dependency_nodes(parent, labels.take(n), repos),
    decreases labels.len() - n,
{
    if n < labels.len() {
        assert(labels.take(n + 1).drop_last() =~= labels.take(n));
        lemma_dependency_nodes_prefix(parent, labels, repos, n + 1);
    } else {
        assert(labels.take(n) =~= labels);
    }
}

/// There are as many nodes as labels.
pub proof fn lemma_dependency_nodes_len(
    parent: KeyView,
    labels: Seq<Seq<char>>,
    repos: Set<Seq<char>>,
)
    requires
        dependency_nodes(parent, labels, repos) is Ok,
    ensures
        dependency_nodes(parent, labels, repos)->Ok_0.len() == labels.len(),
    decreases labels.len(),
{
    if labels.len() > 0 {
        lemma_dependency_nodes_len(parent, labels.drop_last(), repos);
    }
}

/// The nodes that some labels stand for in `parent`.
#[verifier::rlimit(30)]
pub fn resolve_deps(
    parent: &ConfiguredTargetKey,
    labels: &Vec<String>,
    repos: &ExternalRepos,
) -> (r: Result<Vec<NodeKey>, Error>)
    ensures
        dependency_nodes(parent@, text::texts(labels@), repos@.dom()) == (match r {
            Ok(keys) => Ok::<Seq<NodeKeyView>, ErrorView>(seqs::views(keys@)),
            Err(e) => Err::<Seq<NodeKeyView>, ErrorView>(e@),
        }),
        r matches Ok(keys) ==> keys@.len() == labels@.len(),
{
    let ghost all = text::texts(labels@);
    let mut keys: Vec<NodeKey> = Vec::new();
    assert(seqs::views(keys@) =~= Seq::empty());
    for i in 0..labels.len()
        invariant
            all == text::texts(labels@),
            dependency_nodes(parent@, all.take(i as int), repos@.dom()) == Ok::<
                Seq<NodeKeyView>,
                ErrorView,
            >(seqs::views(keys@)),
    {
        assert(all.take(i + 1).drop_last() =~= all.take(i as int));
        match resolve_dep(parent, &labels[i], repos) {
            Ok(k) => {
                let ghost before = seqs::views(keys@);
                keys.push(k);
                assert(seqs::views(keys@) =~= before.push(k@));
            },
            Err(e) => {
                proof {
                    lemma_dependency_nodes_prefix(parent@, all, repos@.dom(), i + 1);
                }
                return Err(e);
            },
        }
    }
    proof {
        assert(all.take(labels@.len() as int) =~= all);
        lemma_dependency_nodes_len(parent@, all, repos@.dom());
    }
    Ok(keys)
}

// ---- Naming a target ----

/// The label of a target. An external package already begins with its repository.
pub open spec fn rendered(package: Seq<char>, name: Seq<char>) -> Seq<char> {
    if "@"@.is_prefix_of(package) {
        package + ":"@ + name
    } else {
        "//"@ + package + ":"@ + name
    }
}

/// The label of a target.
pub fn render_label(package: &str, name: &str) -> (r: String)
    ensures
        r@ == rendered(package@, name@),
{
    if strip_prefix(package, "@").is_some() {
        package.to_owned().concat(":").concat(name)
    } else {
        "//".to_owned().concat(package).concat(":").concat(name)
    }
}

/// The repository that a path of the execution tree belongs to: `external/<repo>/…` to `<repo>`, any
/// other path to the main repository.
pub open spec fn repo_of(exec_path: Seq<char>) -> Option<Seq<char>> {
    match text::after(exec_path, "external/"@) {
        None => None,
        Some(rest) => match text::cut(rest, "/"@) {
            None => Some(rest),
            Some((repo, _)) => Some(repo),
        },
    }
}

/// The repository that a path of the execution tree belongs to.
pub fn repo_context_of(exec_path: &str) -> (r: Option<String>)
    ensures
        text::optional(r) == repo_of(exec_path@),
{
    match strip_prefix(exec_path, "external/") {
        None => None,
        Some(rest) => match split_once(rest, "/") {
            None => Some(rest.to_owned()),
            Some((repo, _)) => Some(repo.to_owned()),
        },
    }
}

// ---- Laws of labels ----

/// Whether a label names its package in full: in a repository, or in the main one.
pub open spec fn absolute(lbl: Seq<char>) -> bool {
    "@"@.is_prefix_of(lbl) || "//"@.is_prefix_of(lbl)
}

/// The parts of a cut make up the whole.
proof fn lemma_cut_parts(s: Seq<char>, sep: Seq<char>)
    requires
        text::cut(s, sep) is Some,
    ensures
        text::cut(s, sep) matches Some((before, behind)) && s == before + sep + behind,
{
    let i = choose|i: int| text::first_at(s, sep, i);
    assert(text::first_at(s, sep, i));
    assert(s =~= s.take(i) + s.subrange(i, i + sep.len()) + s.skip(i + sep.len()));
}

/// What follows a prefix makes up the whole with it.
proof fn lemma_after_parts(s: Seq<char>, prefix: Seq<char>)
    requires
        prefix.is_prefix_of(s),
    ensures
        text::after(s, prefix) is Some,
        s == prefix + text::after(s, prefix)->0,
{
    assert(s =~= prefix + s.skip(prefix.len() as int));
}

/// A dependency is analysed in the dimensions of the target that names it.
pub proof fn law_dimensions_are_threaded(parent: KeyView, lbl: Seq<char>, repos: Set<Seq<char>>)
    requires
        dependency(parent, lbl, repos) is Ok,
    ensures
        ({
            let k = dependency(parent, lbl, repos)->Ok_0;
            &&& k.configuration == parent.configuration
            &&& k.exec_platform == parent.exec_platform
            &&& k.rule_transition == parent.rule_transition
        }),
{
}

/// The node that a label stands for gives back the key.
pub proof fn law_dependency_nodes_decode(parent: KeyView, lbl: Seq<char>, repos: Set<Seq<char>>)
    requires
        dependency(parent, lbl, repos) is Ok,
        key::key_fits(dependency(parent, lbl, repos)->Ok_0),
    ensures
        key::decoded(dependency_node(parent, lbl, repos)->Ok_0.bytes) == dependency(
            parent,
            lbl,
            repos,
        ),
{
    let k = dependency(parent, lbl, repos)->Ok_0;
    key::law_decode_undoes_encode(k, Seq::empty());
    assert(key::key_bytes(k) + Seq::empty() =~= key::key_bytes(k));
}

/// A text begins with `@` exactly where that is its first character.
proof fn lemma_at_prefix(s: Seq<char>)
    ensures
        "@"@.is_prefix_of(s) <==> s.len() > 0 && s[0] == '@',
{
    reveal_strlit("@");
    if s.len() > 0 && s[0] == '@' {
        assert("@"@ =~= s.subrange(0, 1));
    } else if "@"@.is_prefix_of(s) {
        assert(s.subrange(0, 1)[0] == "@"@[0]);
    }
}

/// A text that begins with `//` or with `:` does not begin with `@`.
proof fn lemma_marks_differ(s: Seq<char>)
    ensures
        "//"@.is_prefix_of(s) ==> !"@"@.is_prefix_of(s),
        ":"@.is_prefix_of(s) ==> !"@"@.is_prefix_of(s) && !"//"@.is_prefix_of(s),
{
    reveal_strlit("//");
    reveal_strlit(":");
    lemma_at_prefix(s);
    if "//"@.is_prefix_of(s) {
        assert(s.subrange(0, 2)[0] == "//"@[0]);
    }
    if ":"@.is_prefix_of(s) {
        assert(s.subrange(0, 1)[0] == ":"@[0]);
    }
}

/// The parts of a label in two groups.
proof fn lemma_regrouped(
    a: Seq<char>,
    b: Seq<char>,
    c: Seq<char>,
    d: Seq<char>,
    e: Seq<char>,
    f: Seq<char>,
)
    ensures
        a + (b + c + (d + e + f)) == (a + b + c + d) + e + f,
{
    assert(a + (b + c + (d + e + f)) =~= (a + b + c + d) + e + f);
}

/// Where the first `//` of a text ends a repository, the text up to a later point is that of an
/// external package.
proof fn lemma_external_text(repo: Seq<char>, pkg: Seq<char>, behind: Seq<char>)
    requires
        repo.len() > 0,
        text::cut(repo + "//"@ + pkg + behind, "//"@) matches Some((r, _)) && r == repo,
    ensures
        is_external(external_package(repo, pkg)),
{
    let sep = "//"@;
    let whole = repo + sep + pkg + behind;
    let part = repo + sep + pkg;
    let i = choose|i: int| text::first_at(whole, sep, i);
    assert(text::first_at(whole, sep, i));
    assert(i == repo.len());
    assert(part.subrange(i, i + sep.len()) =~= sep);
    assert forall|j: int| 0 <= j < i implies !#[trigger] text::occurs_at(part, sep, j) by {
        if text::occurs_at(part, sep, j) {
            assert(whole.subrange(j, j + sep.len()) =~= part.subrange(j, j + sep.len()));
            assert(text::occurs_at(whole, sep, j));
        }
    }
    text::lemma_cut_at(part, sep, i);
    assert(part.take(i) =~= repo);
    assert(external_package(repo, pkg) =~= "@"@ + part);
    lemma_after_found("@"@, part);
}

/// What a label of an external target is made of.
#[verifier::rlimit(30)]
proof fn lemma_external_label(package: Seq<char>, lbl: Seq<char>, repos: Set<Seq<char>>)
    requires
        "@"@.is_prefix_of(lbl),
        labelled(package, lbl, repos) is Ok,
    ensures
        ({
            let (p, n) = labelled(package, lbl, repos)->Ok_0;
            "@"@.is_prefix_of(p) && is_external(p) && lbl == p + ":"@ + n
        }),
{
    let (p, n) = labelled(package, lbl, repos)->Ok_0;
    let rest = text::after(lbl, "@"@)->0;
    let (repo, behind) = text::cut(rest, "//"@)->0;
    let (pkg, _) = text::cut(behind, ":"@)->0;
    lemma_after_parts(lbl, "@"@);
    lemma_cut_parts(rest, "//"@);
    lemma_cut_parts(behind, ":"@);
    lemma_regrouped("@"@, repo, "//"@, pkg, ":"@, n);
    lemma_at_prefix(lbl);
    lemma_at_prefix(p);
    reveal_strlit("@");
    assert(p.len() > 0 && p[0] == "@"@[0]);
    assert(repo + "//"@ + pkg + (":"@ + n) =~= rest);
    lemma_external_text(repo, pkg, ":"@ + n);
}

/// What a label of a target of the main repository is made of.
proof fn lemma_internal_label(package: Seq<char>, lbl: Seq<char>, repos: Set<Seq<char>>)
    requires
        "//"@.is_prefix_of(lbl),
        labelled(package, lbl, repos) is Ok,
    ensures
        ({
            let (p, n) = labelled(package, lbl, repos)->Ok_0;
            !is_external(p) && lbl == "//"@ + p + ":"@ + n
        }),
{
    let (p, n) = labelled(package, lbl, repos)->Ok_0;
    let rest = text::after(lbl, "//"@)->0;
    lemma_marks_differ(lbl);
    lemma_after_parts(lbl, "//"@);
    lemma_cut_parts(rest, ":"@);
    assert("//"@ + (p + ":"@ + n) =~= "//"@ + p + ":"@ + n);
}

/// An absolute label is the label of the target it stands for, save one that puts an `@` behind the
/// `//`.
pub proof fn law_absolute_labels_render_back(
    package: Seq<char>,
    lbl: Seq<char>,
    repos: Set<Seq<char>>,
)
    requires
        absolute(lbl),
        !"//@"@.is_prefix_of(lbl),
        labelled(package, lbl, repos) is Ok,
    ensures
        ({
            let (p, n) = labelled(package, lbl, repos)->Ok_0;
            rendered(p, n) == lbl
        }),
{
    if "@"@.is_prefix_of(lbl) {
        lemma_external_label(package, lbl, repos);
    } else {
        let (p, n) = labelled(package, lbl, repos)->Ok_0;
        lemma_internal_label(package, lbl, repos);
        lemma_at_prefix(p);
        if "@"@.is_prefix_of(p) {
            reveal_strlit("//");
            reveal_strlit("//@");
            assert("//@"@ =~= lbl.subrange(0, 3));
        }
    }
}

/// Two absolute labels stand for one target only where they are the same label: an external target
/// is none of the main repository, whatever its package and its name.
pub proof fn law_absolute_labels_are_distinct(
    parent: KeyView,
    a: Seq<char>,
    b: Seq<char>,
    repos: Set<Seq<char>>,
)
    requires
        absolute(a),
        absolute(b),
        a != b,
        dependency(parent, a, repos) is Ok,
        dependency(parent, b, repos) is Ok,
    ensures
        dependency(parent, a, repos) != dependency(parent, b, repos),
        ({
            let (j, k) = (dependency(parent, a, repos)->Ok_0, dependency(parent, b, repos)->Ok_0);
            key::key_fits(j) && key::key_fits(k) ==> key::key_bytes(j) != key::key_bytes(k)
        }),
{
    lemma_marks_differ(a);
    lemma_marks_differ(b);
    if "@"@.is_prefix_of(a) {
        lemma_external_label(parent.package, a, repos);
    } else {
        lemma_internal_label(parent.package, a, repos);
    }
    if "@"@.is_prefix_of(b) {
        lemma_external_label(parent.package, b, repos);
    } else {
        lemma_internal_label(parent.package, b, repos);
    }
    let (j, k) = (dependency(parent, a, repos)->Ok_0, dependency(parent, b, repos)->Ok_0);
    if key::key_fits(j) && key::key_fits(k) {
        key::law_bytes_tell_keys_apart(j, k);
    }
}

/// A package of a repository and a package of the main one are two packages, also where one name is
/// the end of the other.
pub proof fn law_external_packages_are_distinct(
    package: Seq<char>,
    external: Seq<char>,
    internal: Seq<char>,
    repos: Set<Seq<char>>,
)
    requires
        "@"@.is_prefix_of(external),
        "//"@.is_prefix_of(internal),
        labelled(package, external, repos) is Ok,
        labelled(package, internal, repos) is Ok,
    ensures
        labelled(package, external, repos)->Ok_0.0 != labelled(package, internal, repos)->Ok_0.0,
{
    lemma_external_label(package, external, repos);
    lemma_internal_label(package, internal, repos);
}

/// A repository that is not declared is never taken for another: a label into it fails, and any
/// label that stands for a target of an external package names a declared repository. The one other
/// way to such a target is `:name` in a target of that very package.
pub proof fn law_repositories_are_declared(
    package: Seq<char>,
    lbl: Seq<char>,
    repos: Set<Seq<char>>,
)
    ensures
        "@"@.is_prefix_of(lbl) ==> (labelled(package, lbl, repos) is Ok <==> {
            &&& external_parts(lbl.skip("@"@.len() as int)) matches Some((repo, _, _))
            &&& repos.contains(repo)
        }),
        labelled(package, lbl, repos) matches Ok((p, _)) ==> (is_external(p) ==> {
            ||| ":"@.is_prefix_of(lbl) && p == package
            ||| {
                &&& "@"@.is_prefix_of(lbl)
                &&& external_parts(lbl.skip("@"@.len() as int)) matches Some((repo, pkg, _))
                &&& repos.contains(repo)
                &&& p == external_package(repo, pkg)
            }
        }),
{
    lemma_marks_differ(lbl);
}

/// A separator does not stand where its first character does not.
proof fn lemma_not_before(a: Seq<char>, sep: Seq<char>, b: Seq<char>, j: int)
    requires
        sep.len() > 0,
        !a.contains(sep[0]),
        0 <= j < a.len(),
    ensures
        !text::occurs_at(a + sep + b, sep, j),
{
    let s = a + sep + b;
    if text::occurs_at(s, sep, j) {
        let found = s.subrange(j, j + sep.len());
        assert(found[0] == s[j]);
        assert(s[j] == a[j]);
        assert(a.contains(a[j]));
    }
}

/// A cut at a separator in front of which its first character does not stand.
#[verifier::rlimit(30)]
proof fn lemma_cut_found(a: Seq<char>, sep: Seq<char>, b: Seq<char>)
    requires
        sep.len() > 0,
        !a.contains(sep[0]),
    ensures
        text::cut(a + sep + b, sep) == Some((a, b)),
{
    let s = a + sep + b;
    let n = a.len() as int;
    assert(text::occurs_at(s, sep, n)) by {
        assert(s.subrange(n, n + sep.len()) =~= sep);
    }
    assert forall|j: int| 0 <= j < n implies !#[trigger] text::occurs_at(s, sep, j) by {
        lemma_not_before(a, sep, b, j);
    }
    text::lemma_cut_at(s, sep, n);
    assert(s.take(n) =~= a);
    assert(s.skip(n + sep.len()) =~= b);
}

/// What follows a prefix that a text was made with.
proof fn lemma_after_found(prefix: Seq<char>, rest: Seq<char>)
    ensures
        text::after(prefix + rest, prefix) == Some(rest),
{
    assert((prefix + rest).subrange(0, prefix.len() as int) =~= prefix);
    assert((prefix + rest).skip(prefix.len() as int) =~= rest);
}

/// The label of a target of the main repository stands for that target, wherever it is written.
pub proof fn law_internal_labels_resolve_back(
    package: Seq<char>,
    p: Seq<char>,
    n: Seq<char>,
    repos: Set<Seq<char>>,
)
    requires
        n.len() > 0,
        !p.contains(':'),
        !"@"@.is_prefix_of(p),
    ensures
        labelled(package, rendered(p, n), repos) == Ok::<(Seq<char>, Seq<char>), ErrorView>((p, n)),
{
    let lbl = rendered(p, n);
    let rest = p + ":"@ + n;
    assert(lbl =~= "//"@ + rest);
    lemma_after_found("//"@, rest);
    lemma_marks_differ(lbl);
    assert(":"@.len() > 0 && ":"@[0] == ':') by {
        reveal_strlit(":");
    }
    lemma_cut_found(p, ":"@, n);
}

/// The label of a target of a declared repository stands for that target, wherever it is written.
pub proof fn law_external_labels_resolve_back(
    package: Seq<char>,
    repo: Seq<char>,
    pkg: Seq<char>,
    n: Seq<char>,
    repos: Set<Seq<char>>,
)
    requires
        n.len() > 0,
        repos.contains(repo),
        repo.len() > 0,
        !repo.contains('/'),
        !pkg.contains(':'),
    ensures
        labelled(package, rendered(external_package(repo, pkg), n), repos) == Ok::<
            (Seq<char>, Seq<char>),
            ErrorView,
        >((external_package(repo, pkg), n)),
{
    let p = external_package(repo, pkg);
    let behind = pkg + ":"@ + n;
    let rest = repo + "//"@ + behind;
    assert("@"@.len() > 0 && "@"@[0] == '@') by {
        reveal_strlit("@");
    }
    assert(":"@.len() > 0 && ":"@[0] == ':') by {
        reveal_strlit(":");
    }
    assert("//"@.len() > 0 && "//"@[0] == '/') by {
        reveal_strlit("//");
    }
    assert(p[0] == "@"@[0]);
    lemma_at_prefix(p);
    lemma_regrouped("@"@, repo, "//"@, pkg, ":"@, n);
    assert(rendered(p, n) == "@"@ + rest);
    lemma_after_found("@"@, rest);
    lemma_cut_found(repo, "//"@, behind);
    lemma_cut_found(pkg, ":"@, n);
}

// ---- Laws of the forms ----

/// Where `//` stands in a text.
proof fn lemma_slashes_at(s: Seq<char>, i: int)
    requires
        0 <= i,
        i + 1 < s.len(),
    ensures
        s.subrange(i, i + 2) == "//"@ <==> s[i] == '/' && s[i + 1] == '/',
{
    reveal_strlit("//");
    if s[i] == '/' && s[i + 1] == '/' {
        assert(s.subrange(i, i + 2) =~= "//"@);
    } else if s.subrange(i, i + 2) == "//"@ {
        assert(s.subrange(i, i + 2)[0] == "//"@[0]);
        assert(s.subrange(i, i + 2)[1] == "//"@[1]);
    }
}

/// An external package is an `@`, a repository that is not empty, and `//`.
pub proof fn law_external_packages_name_a_repository(p: Seq<char>)
    ensures
        is_external(p) <==> {
            &&& p.len() > 0 && p[0] == '@'
            &&& !(p.len() > 2 && p[1] == '/' && p[2] == '/')
            &&& exists|i: int| 2 <= i < p.len() - 1 && #[trigger] p[i] == '/' && p[i + 1] == '/'
        },
{
    lemma_at_prefix(p);
    assert("@"@.len() == 1 && "//"@.len() == 2) by {
        reveal_strlit("@");
        reveal_strlit("//");
    }
    if p.len() > 0 && p[0] == '@' {
        let rest = p.skip(1);
        text::law_cut_takes_apart(rest, "//"@);
        if rest.len() > 1 {
            lemma_slashes_at(rest, 0);
        }
        if text::cut(rest, "//"@) is Some {
            let (repo, behind) = text::cut(rest, "//"@)->0;
            let n = repo.len() as int;
            assert(rest.subrange(n, n + 2) =~= "//"@);
            lemma_slashes_at(rest, n);
            assert(p[n + 1] == rest[n] && p[n + 2] == rest[n + 1]);
            if n > 0 {
                assert(rest.subrange(0, 2) != "//"@);
            } else {
                assert(p[1] == '/' && p[2] == '/');
            }
        } else {
            assert forall|i: int| 2 <= i < p.len() - 1 implies !(#[trigger] p[i] == '/' && p[i + 1]
                == '/') by {
                lemma_slashes_at(rest, i - 1);
                assert(rest.subrange(i - 1, i - 1 + 2) != "//"@);
                assert(p[i] == rest[i - 1] && p[i + 1] == rest[i]);
            }
        }
    }
}

/// A relative label stays in the package of the target that names it, whatever package that is.
pub proof fn law_relative_labels_stay_in_the_package(
    package: Seq<char>,
    n: Seq<char>,
    repos: Set<Seq<char>>,
)
    requires
        n.len() > 0,
    ensures
        labelled(package, ":"@ + n, repos) == Ok::<(Seq<char>, Seq<char>), ErrorView>((package, n)),
{
    let lbl = ":"@ + n;
    lemma_after_found(":"@, n);
    assert(":"@.is_prefix_of(lbl));
    lemma_marks_differ(lbl);
}

/// A label behind `//` stands for the package up to the first `:` and the name behind it, in whatever
/// package it is written.
pub proof fn law_internal_labels_name_package_and_target(
    package: Seq<char>,
    p: Seq<char>,
    n: Seq<char>,
    repos: Set<Seq<char>>,
)
    requires
        n.len() > 0,
        !p.contains(':'),
        !is_external(p),
    ensures
        labelled(package, "//"@ + p + ":"@ + n, repos) == Ok::<(Seq<char>, Seq<char>), ErrorView>(
            (p, n),
        ),
{
    let rest = p + ":"@ + n;
    let lbl = "//"@ + rest;
    assert("//"@ + p + ":"@ + n =~= lbl);
    lemma_after_found("//"@, rest);
    assert("//"@.is_prefix_of(lbl));
    lemma_marks_differ(lbl);
    assert(":"@.len() > 0 && ":"@[0] == ':') by {
        reveal_strlit(":");
    }
    lemma_cut_found(p, ":"@, n);
}

/// A repository that ends at the first `//`.
proof fn lemma_repository_is_cut(repo: Seq<char>, behind: Seq<char>)
    requires
        ends_at_first_slashes(repo),
    ensures
        text::cut(repo + "//"@ + behind, "//"@) == Some((repo, behind)),
{
    let s = repo + "//"@ + behind;
    let n = repo.len() as int;
    assert("//"@.len() == 2) by {
        reveal_strlit("//");
    }
    assert(s.subrange(n, n + 2) =~= "//"@);
    assert forall|j: int| 0 <= j < n implies !#[trigger] text::occurs_at(s, "//"@, j) by {
        lemma_slashes_at(s, j);
        assert(s[j] == repo[j]);
        if j + 1 < n {
            assert(s[j + 1] == repo[j + 1]);
        }
    }
    text::lemma_cut_at(s, "//"@, n);
    assert(s.take(n) =~= repo);
    assert(s.skip(n + 2) =~= behind);
}

/// A label behind `@` stands for a target of the repository up to the first `//`, where that is
/// declared; where it is not, the failure says so.
pub proof fn law_external_labels_name_repository_package_and_target(
    package: Seq<char>,
    repo: Seq<char>,
    pkg: Seq<char>,
    n: Seq<char>,
    repos: Set<Seq<char>>,
)
    requires
        n.len() > 0,
        repo.len() > 0,
        ends_at_first_slashes(repo),
        !pkg.contains(':'),
    ensures
        ({
            let lbl = "@"@ + repo + "//"@ + pkg + ":"@ + n;
            labelled(package, lbl, repos) == (if repos.contains(repo) {
                Ok(("@"@ + repo + "//"@ + pkg, n))
            } else {
                Err::<(Seq<char>, Seq<char>), ErrorView>(
                    ErrorView::NotFound {
                        what: "external repository"@,
                        detail: "undeclared repository '@"@ + repo + "' in dep label '"@ + lbl
                            + "' (fail-closed — no workspace fallback)"@,
                    },
                )
            })
        }),
{
    let behind = pkg + ":"@ + n;
    let rest = repo + "//"@ + behind;
    let lbl = "@"@ + repo + "//"@ + pkg + ":"@ + n;
    lemma_regrouped("@"@, repo, "//"@, pkg, ":"@, n);
    assert(lbl == "@"@ + rest);
    lemma_after_found("@"@, rest);
    lemma_repository_is_cut(repo, behind);
    assert(":"@.len() > 0 && ":"@[0] == ':') by {
        reveal_strlit(":");
    }
    lemma_cut_found(pkg, ":"@, n);
}

/// Whether the first `//` behind a repository is the one that ends it: it neither holds `//` nor ends
/// with `/`.
pub open spec fn ends_at_first_slashes(repo: Seq<char>) -> bool {
    forall|j: int|
        0 <= j < repo.len() ==> !(#[trigger] repo[j] == '/' && (j + 1 == repo.len() || repo[j + 1]
            == '/'))
}

/// In front of the first `//` there is none.
proof fn lemma_before_slashes(s: Seq<char>)
    ensures
        text::cut(s, "//"@) matches Some((before, _)) ==> ends_at_first_slashes(before),
{
    if text::cut(s, "//"@) is Some {
        let (before, behind) = text::cut(s, "//"@)->0;
        text::law_cut_takes_apart(s, "//"@);
        reveal_strlit("//");
        assert forall|j: int| 0 <= j < before.len() implies !(#[trigger] before[j] == '/' && (j + 1
            == before.len() || before[j + 1] == '/')) by {
            lemma_slashes_at(s, j);
            assert(s.subrange(j, j + "//"@.len()) != "//"@);
            assert(s[j] == before[j]);
            if j + 1 < before.len() {
                assert(s[j + 1] == before[j + 1]);
            } else {
                assert(s[j + 1] == "//"@[0]);
            }
        }
    }
}

/// There are no other labels: one that stands for a target is `:` and the name, `//`, the package,
/// `:` and the name, or `@`, a declared repository, `//`, the package in it, `:` and the name.
pub proof fn law_no_other_labels(package: Seq<char>, lbl: Seq<char>, repos: Set<Seq<char>>)
    ensures
        labelled(package, lbl, repos) matches Ok((p, n)) ==> n.len() > 0 && {
            ||| lbl == ":"@ + n && p == package
            ||| lbl == "//"@ + p + ":"@ + n && !p.contains(':') && !is_external(p)
            ||| exists|repo: Seq<char>, pkg: Seq<char>|
                p == #[trigger] ("@"@ + repo + "//"@ + pkg) && lbl == p + ":"@ + n && repo.len() > 0
                    && ends_at_first_slashes(repo) && repos.contains(repo) && !pkg.contains(':')
        },
{
    if labelled(package, lbl, repos) is Ok {
        let (p, n) = labelled(package, lbl, repos)->Ok_0;
        if "@"@.is_prefix_of(lbl) {
            let rest = text::after(lbl, "@"@)->0;
            let (repo, pkg, _) = external_parts(rest)->0;
            let (_, behind) = text::cut(rest, "//"@)->0;
            lemma_external_label(package, lbl, repos);
            lemma_before_colon(behind);
            lemma_before_slashes(rest);
            assert(p == "@"@ + repo + "//"@ + pkg);
        } else if "//"@.is_prefix_of(lbl) {
            lemma_internal_label(package, lbl, repos);
            lemma_before_colon(text::after(lbl, "//"@)->0);
        } else {
            lemma_after_parts(lbl, ":"@);
        }
    }
}

/// In front of the first `:` there is none.
proof fn lemma_before_colon(s: Seq<char>)
    ensures
        text::cut(s, ":"@) matches Some((before, _)) ==> !before.contains(':'),
{
    if text::cut(s, ":"@) is Some {
        let (before, behind) = text::cut(s, ":"@)->0;
        text::law_cut_takes_apart(s, ":"@);
        reveal_strlit(":");
        if before.contains(':') {
            let j = choose|j: int| 0 <= j < before.len() && before[j] == ':';
            assert(s[j] == ':');
            assert(s.subrange(j, j + 1) =~= ":"@);
            assert(s.subrange(j, j + ":"@.len()) == ":"@);
        }
    }
}

/// What stands for nothing is refused with a failure that shows the label and the form that was
/// expected of it.
pub proof fn law_label_failures_show_the_label(
    package: Seq<char>,
    lbl: Seq<char>,
    repos: Set<Seq<char>>,
)
    ensures
        labelled(package, lbl, repos) matches Err(e) ==> {
            ||| lbl == ":"@ && e == (ErrorView::Unsupported {
                what: "dep label form"@,
                detail: "empty target name"@,
            })
            ||| "//"@.is_prefix_of(lbl) && e == (ErrorView::Unsupported {
                what: "dep label form"@,
                detail: "expected //pkg:name, got '"@ + lbl + "'"@,
            })
            ||| "@"@.is_prefix_of(lbl) && e == (ErrorView::Unsupported {
                what: "dep label form"@,
                detail: "expected '@repo//pkg:name', got '"@ + lbl + "'"@,
            })
            ||| exists|repo: Seq<char>, pkg: Seq<char>, n: Seq<char>|
                lbl == #[trigger] ("@"@ + repo + "//"@ + pkg + ":"@ + n) && repo.len() > 0
                    && ends_at_first_slashes(repo) && n.len() > 0 && !repos.contains(repo) && e == (
                ErrorView::NotFound {
                    what: "external repository"@,
                    detail: "undeclared repository '@"@ + repo + "' in dep label '"@ + lbl
                        + "' (fail-closed — no workspace fallback)"@,
                })
            ||| !"@"@.is_prefix_of(lbl) && !"//"@.is_prefix_of(lbl) && !":"@.is_prefix_of(lbl) && e
                == (ErrorView::Unsupported {
                what: "dep label form"@,
                detail: "expected ':name', '//pkg:name', or '@repo//pkg:name', got '"@ + lbl + "'"@,
            })
        },
{
    if labelled(package, lbl, repos) is Err {
        if "@"@.is_prefix_of(lbl) {
            let rest = text::after(lbl, "@"@)->0;
            lemma_after_parts(lbl, "@"@);
            if external_parts(rest) is Some {
                let (repo, pkg, n) = external_parts(rest)->0;
                let (_, behind) = text::cut(rest, "//"@)->0;
                lemma_cut_parts(rest, "//"@);
                lemma_cut_parts(behind, ":"@);
                lemma_before_slashes(rest);
                lemma_regrouped("@"@, repo, "//"@, pkg, ":"@, n);
                assert(lbl =~= "@"@ + repo + "//"@ + pkg + ":"@ + n);
            }
        } else if !"//"@.is_prefix_of(lbl) && ":"@.is_prefix_of(lbl) {
            lemma_after_parts(lbl, ":"@);
            assert(lbl =~= ":"@);
        }
    }
}

/// A dependency is the target that its label names, and fails where the label does.
pub proof fn law_dependencies_are_what_labels_name(
    parent: KeyView,
    lbl: Seq<char>,
    repos: Set<Seq<char>>,
)
    ensures
        dependency(parent, lbl, repos) matches Ok(k) ==> labelled(parent.package, lbl, repos) == Ok::<
            (Seq<char>, Seq<char>),
            ErrorView,
        >((k.package, k.name)) && k.configuration == parent.configuration && k.exec_platform
            == parent.exec_platform && k.rule_transition == parent.rule_transition,
        dependency(parent, lbl, repos) matches Err(e) ==> labelled(parent.package, lbl, repos)
            == Err::<(Seq<char>, Seq<char>), ErrorView>(e),
        dependency_node(parent, lbl, repos) matches Ok(node) ==> dependency(
            parent,
            lbl,
            repos,
        ) matches Ok(k) && node.bytes == key::key_bytes(k) && node.kind == 40,
        dependency_node(parent, lbl, repos) matches Err(e) ==> dependency(parent, lbl, repos)
            == Err::<KeyView, ErrorView>(e),
{
}

/// A group of labels stands for their targets one by one, or fails as the first does that fails.
pub proof fn law_groups_are_resolved_one_by_one(
    parent: KeyView,
    labels: Seq<Seq<char>>,
    repos: Set<Seq<char>>,
)
    ensures
        dependency_nodes(parent, labels, repos) matches Ok(nodes) ==> nodes.len() == labels.len()
            && forall|i: int|
            0 <= i < labels.len() ==> dependency_node(parent, labels[i], repos) == Ok::<
                NodeKeyView,
                ErrorView,
            >(#[trigger] nodes[i]),
        dependency_nodes(parent, labels, repos) matches Err(e) ==> exists|i: int|
            0 <= i < labels.len() && dependency_node(parent, #[trigger] labels[i], repos) == Err::<
                NodeKeyView,
                ErrorView,
            >(e) && forall|j: int|
                0 <= j < i ==> dependency_node(parent, #[trigger] labels[j], repos) is Ok,
    decreases labels.len(),
{
    if labels.len() > 0 {
        let before = labels.drop_last();
        let n = labels.len() - 1;
        law_groups_are_resolved_one_by_one(parent, before, repos);
        match dependency_nodes(parent, before, repos) {
            Err(e) => {
                let i = choose|i: int|
                    0 <= i < before.len() && dependency_node(parent, #[trigger] before[i], repos)
                        == Err::<NodeKeyView, ErrorView>(e) && forall|j: int|
                        0 <= j < i ==> dependency_node(parent, #[trigger] before[j], repos) is Ok;
                assert(labels[i] == before[i]);
                assert forall|j: int| 0 <= j < i implies dependency_node(
                    parent,
                    #[trigger] labels[j],
                    repos,
                ) is Ok by {
                    assert(before[j] == labels[j]);
                }
            },
            Ok(nodes) => {
                assert forall|i: int| 0 <= i < n implies dependency_node(
                    parent,
                    #[trigger] labels[i],
                    repos,
                ) == Ok::<NodeKeyView, ErrorView>(nodes[i]) by {
                    assert(before[i] == labels[i]);
                    assert(nodes[i] == nodes[i]);
                }
                if dependency_node(parent, labels[n], repos) is Ok {
                    let all = dependency_nodes(parent, labels, repos)->Ok_0;
                    assert forall|i: int| 0 <= i < labels.len() implies dependency_node(
                        parent,
                        labels[i],
                        repos,
                    ) == Ok::<NodeKeyView, ErrorView>(#[trigger] all[i]) by {
                        if i < n {
                            assert(all[i] == nodes[i]);
                        }
                    }
                } else {
                    assert(labels[n] == labels.last());
                }
            },
        }
    }
}

/// A label is written with its package as it is where that begins with `@`, and behind `//` where it
/// does not.
pub proof fn law_labels_show_package_and_name(p: Seq<char>, n: Seq<char>)
    ensures
        p.len() > 0 && p[0] == '@' ==> rendered(p, n) == p + ":"@ + n,
        p.len() == 0 || p[0] != '@' ==> rendered(p, n) == "//"@ + p + ":"@ + n,
{
    lemma_at_prefix(p);
}

/// A path of an external repository belongs to the repository that it names; any other path belongs
/// to none.
#[verifier::rlimit(30)]
pub proof fn law_paths_belong_to_their_repository(repo: Seq<char>, rest: Seq<char>, path: Seq<char>)
    ensures
        !repo.contains('/') ==> repo_of("external/"@ + repo + "/"@ + rest) == Some(repo),
        !repo.contains('/') ==> repo_of("external/"@ + repo) == Some(repo),
        repo_of(path) matches Some(r) ==> !r.contains('/') && ("external/"@ + r).is_prefix_of(path),
        repo_of(path) is None ==> !"external/"@.is_prefix_of(path),
{
    let e = "external/"@;
    assert("/"@.len() == 1 && "/"@[0] == '/') by {
        reveal_strlit("/");
    }
    if !repo.contains('/') {
        assert(e + repo + "/"@ + rest =~= e + (repo + "/"@ + rest));
        lemma_after_found(e, repo + "/"@ + rest);
        lemma_cut_found(repo, "/"@, rest);
        lemma_after_found(e, repo);
        text::law_cut_takes_apart(repo, "/"@);
        if text::cut(repo, "/"@) is Some {
            let (a, b) = text::cut(repo, "/"@)->0;
            assert(repo[a.len() as int] == '/');
            assert(repo.contains('/'));
        }
    }
    if repo_of(path) is Some {
        let r = repo_of(path)->0;
        let tail = text::after(path, e)->0;
        lemma_after_parts(path, e);
        text::law_cut_takes_apart(tail, "/"@);
        assert((e + r).is_prefix_of(path)) by {
            assert(path.subrange(0, (e + r).len() as int) =~= e + r);
        }
        if r.contains('/') {
            let j = choose|j: int| 0 <= j < r.len() && r[j] == '/';
            assert(tail[j] == '/');
            assert(tail.subrange(j, j + 1) =~= "/"@);
            assert(tail.subrange(j, j + "/"@.len()) == "/"@);
        }
    }
}

/// A repository is declared where a declaration names it, and the last that does counts.
pub proof fn law_last_declaration_counts(pairs: Seq<(String, ExternalRepo)>, i: int)
    ensures
        0 <= i < pairs.len() && (forall|j: int|
            i < j < pairs.len() ==> (#[trigger] pairs[j]).0@ != pairs[i].0@) ==> declared_repos(
            pairs,
        ).dom().contains(pairs[i].0@) && declared_repos(pairs)[pairs[i].0@] == pairs[i].1,
        forall|name: Seq<char>| #[trigger]
            declared_repos(pairs).dom().contains(name) ==> exists|j: int|
                0 <= j < pairs.len() && (#[trigger] pairs[j]).0@ == name,
    decreases pairs.len(),
{
    if pairs.len() > 0 {
        let before = pairs.drop_last();
        law_last_declaration_counts(before, i);
        if 0 <= i < before.len() && forall|j: int|
            i < j < pairs.len() ==> (#[trigger] pairs[j]).0@ != pairs[i].0@ {
            assert forall|j: int| i < j < before.len() implies (#[trigger] before[j]).0@
                != before[i].0@ by {
                assert(pairs[j].0@ != pairs[i].0@);
            }
            assert(pairs[pairs.len() - 1].0@ != pairs[i].0@);
        }
        assert forall|name: Seq<char>| #[trigger]
            declared_repos(pairs).dom().contains(name) implies exists|j: int|
            0 <= j < pairs.len() && (#[trigger] pairs[j]).0@ == name by {
            if declared_repos(before).dom().contains(name) {
                let j = choose|j: int| 0 <= j < before.len() && (#[trigger] before[j]).0@ == name;
                assert(pairs[j].0@ == name);
            } else {
                assert(pairs[pairs.len() - 1].0@ == name);
            }
        }
    }
}

/// A dependency is resolved to a node from which the key of the named target is read back: for a
/// relative label the name in the parent's own package, for a label behind `//` the package and the
/// name that it spells, both in the dimensions of the parent.
pub proof fn law_resolved_labels_are_read_back(
    parent: ConfiguredTargetKey,
    lbl: &str,
    repos: ExternalRepos,
    r: Result<NodeKey, Error>,
    p: Seq<char>,
    n: Seq<char>,
)
    requires
        call_ensures(resolve_dep, (&parent, lbl, &repos), r),
        n.len() > 0,
        (lbl@ == ":"@ + n && p == parent.package@) || (lbl@ == "//"@ + p + ":"@ + n && !p.contains(
            ':',
        ) && !is_external(p)),
    ensures
        r matches Ok(node) && node.kind == 40 && node.bytes@ == key::key_bytes(
            KeyView { package: p, name: n, ..parent@ },
        ),
{
    if lbl@ == ":"@ + n && p == parent.package@ {
        law_relative_labels_stay_in_the_package(parent.package@, n, repos@.dom());
    } else {
        law_internal_labels_name_package_and_target(parent.package@, p, n, repos@.dom());
    }
}

/// A repository is found exactly where it is declared.
pub proof fn law_repositories_are_found_by_name(
    repos: ExternalRepos,
    name: &str,
    r: bool,
    found: Option<&ExternalRepo>,
)
    ensures
        call_ensures(ExternalRepos::empty, (), repos) ==> !repos@.dom().contains(name@),
        call_ensures(ExternalRepos::contains, (&repos, name), r) && call_ensures(
            ExternalRepos::get,
            (&repos, name),
            found,
        ) ==> (r <==> found is Some),
        call_ensures(ExternalRepos::get, (&repos, name), found) ==> (found matches Some(x) ==> *x
            == repos@[name@]),
{
}

/// A label is written as package and name, and the repository of a path is told from the path alone.
pub proof fn law_written_labels_show_package_and_name(
    package: &str,
    name: &str,
    r: String,
    path: &str,
    context: Option<String>,
    repo: Seq<char>,
    rest: Seq<char>,
)
    ensures
        call_ensures(render_label, (package, name), r) ==> r@ == (if package@.len() > 0
            && package@[0] == '@' {
            package@ + ":"@ + name@
        } else {
            "//"@ + package@ + ":"@ + name@
        }),
        call_ensures(repo_context_of, (path,), context) && !repo.contains('/') && (path@
            == "external/"@ + repo || path@ == "external/"@ + repo + "/"@ + rest) ==> (
        context matches Some(x) && x@ == repo),
        call_ensures(repo_context_of, (path,), context) && !"external/"@.is_prefix_of(path@)
            ==> context is None,
{
    law_labels_show_package_and_name(package@, name@);
    law_paths_belong_to_their_repository(repo, rest, path@);
    if !"external/"@.is_prefix_of(path@) && repo_of(path@) is Some {
        let r = repo_of(path@)->0;
        let head = "external/"@ + r;
        assert(path@.subrange(0, "external/"@.len() as int) =~= head.subrange(
            0,
            "external/"@.len() as int,
        ));
        assert(head.subrange(0, "external/"@.len() as int) =~= "external/"@);
    }
}

} // verus!
