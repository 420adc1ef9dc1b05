//! Visibility: which targets a target may depend on.

use vstd::prelude::*;
use crate::decl::{DeclView, TargetDecl};
use crate::error::{self, invalid, Error, ErrorView};
use crate::seqs;
use crate::text::{self, same_text};
use crate::value::{self, find_named, labels_of, ValueView};

verus! {

/// Visible everywhere.
pub const VISIBILITY_PUBLIC: &'static str = "//visibility:public";

/// Visible in its own package only.
pub const VISIBILITY_PRIVATE: &'static str = "//visibility:private";

/// The visibility labels of a declaration: what its `visibility` attribute names.
pub open spec fn visibility_of(target: DeclView) -> Seq<Seq<char>> {
    match value::lookup(target.attrs, "visibility"@) {
        Some(v) => value::labels_in(v),
        None => Seq::empty(),
    }
}

/// The visibility labels of a declaration. Without any it is private.
pub fn target_visibility(target: &TargetDecl) -> (r: Vec<String>)
    ensures
        text::texts(r@) == visibility_of(target@),
{
    match find_named(&target.attrs, "visibility") {
        Some(v) => labels_of(v),
        None => {
            let r: Vec<String> = Vec::new();
            assert(text::texts(r@) =~= Seq::empty());
            r
        },
    }
}

/// Whether a visibility label is one of those that are understood.
pub open spec fn understood(v: Seq<char>) -> bool {
    v == VISIBILITY_PUBLIC@ || v == VISIBILITY_PRIVATE@
}

/// The failure that a visibility label of another form is answered with.
pub open spec fn form_error(v: Seq<char>, dep_label: Seq<char>) -> ErrorView {
    ErrorView::Unsupported {
        what: "visibility form"@,
        detail: "unsupported visibility '"@ + v + "' on '"@ + dep_label
            + "' (v1: //visibility:public|private only)"@,
    }
}

/// The failure that an edge to a private target of another package is answered with.
pub open spec fn private_error(parent_label: Seq<char>, dep_label: Seq<char>) -> ErrorView {
    ErrorView::Invalid {
        what: "visibility"@,
        detail: "target '"@ + dep_label + "' is not visible to '"@ + parent_label
            + "' (default private; add visibility = [\"//visibility:public\"])"@,
    }
}

/// Whether a target of one package may depend on a target of another, by the visibility labels of
/// the latter. Within one package it always may. Across packages every label has to be understood,
/// and one of them has to be the public one.
pub open spec fn admitted(
    parent_pkg: Seq<char>,
    dep_pkg: Seq<char>,
    parent_label: Seq<char>,
    dep_label: Seq<char>,
    visibility: Seq<Seq<char>>,
) -> Result<(), ErrorView> {
    if parent_pkg == dep_pkg {
        Ok(())
    } else {
        match seqs::first(visibility, |v: Seq<char>| !understood(v)) {
            Some(v) => Err(form_error(v, dep_label)),
            None => if visibility.contains(VISIBILITY_PUBLIC@) {
                Ok(())
            } else {
                Err(private_error(parent_label, dep_label))
            },
        }
    }
}

/// Checks the edge from a target of `parent_pkg` to a target of `dep_pkg`.
pub fn check_visibility(
    parent_pkg: &str,
    dep_pkg: &str,
    parent_label: &str,
    dep_label: &str,
    dep_visibility: &[String],
) -> (r: Result<(), Error>)
    ensures
        error::outcome(r) == admitted(
            parent_pkg@,
            dep_pkg@,
            parent_label@,
            dep_label@,
            text::texts(dep_visibility@),
        ),
{
    if same_text(parent_pkg, dep_pkg) {
        return Ok(());
    }
    let ghost all = text::texts(dep_visibility@);
    let ghost p = |v: Seq<char>| !understood(v);
    let mut public = false;
    for i in 0..dep_visibility.len()
        invariant
            parent_pkg@ != dep_pkg@,
            all == text::texts(dep_visibility@),
            p == (|v: Seq<char>| !understood(v)),
            forall|j: int| 0 <= j < i ==> !p(#[trigger] all[j]),
            public == exists|j: int| 0 <= j < i && #[trigger] all[j] == VISIBILITY_PUBLIC@,
    {
        if same_text(&dep_visibility[i], VISIBILITY_PUBLIC) {
            public = true;
            assert(all[i as int] == VISIBILITY_PUBLIC@);
        } else if !same_text(&dep_visibility[i], VISIBILITY_PRIVATE) {
            proof {
                assert(seqs::first_where(all, p, i as int));
                seqs::lemma_first_at(all, p, i as int);
            }
            return Err(
                Error::Unsupported {
                    what: "visibility form",
                    detail: "unsupported visibility '".to_owned().concat(
                        &dep_visibility[i],
                    ).concat("' on '").concat(dep_label).concat(
                        "' (v1: //visibility:public|private only)",
                    ),
                },
            );
        }
    }
    if public {
        return Ok(());
    }
    Err(
        invalid(
            "visibility",
            "target '".to_owned().concat(dep_label).concat("' is not visible to '").concat(
                parent_label,
            ).concat("' (default private; add visibility = [\"//visibility:public\"])"),
        ),
    )
}

// ---- Laws of visibility ----

/// Within one package every edge is admitted, whatever the labels are.
pub proof fn law_own_package_is_visible(
    package: Seq<char>,
    parent_label: Seq<char>,
    dep_label: Seq<char>,
    visibility: Seq<Seq<char>>,
)
    ensures
        admitted(package, package, parent_label, dep_label, visibility) is Ok,
{
}

/// Across packages an edge is admitted exactly where every label is understood and the public one
/// is among them. No other label, and no absence of labels, opens a target.
pub proof fn law_only_public_crosses_packages(
    parent_pkg: Seq<char>,
    dep_pkg: Seq<char>,
    parent_label: Seq<char>,
    dep_label: Seq<char>,
    visibility: Seq<Seq<char>>,
)
    requires
        parent_pkg != dep_pkg,
    ensures
        admitted(parent_pkg, dep_pkg, parent_label, dep_label, visibility) is Ok <==> {
            &&& forall|i: int| 0 <= i < visibility.len() ==> understood(#[trigger] visibility[i])
            &&& visibility.contains(VISIBILITY_PUBLIC@)
        },
{
    let p = |v: Seq<char>| !understood(v);
    if exists|i: int| 0 <= i < visibility.len() && p(#[trigger] visibility[i]) {
        let i = choose|i: int| 0 <= i < visibility.len() && p(#[trigger] visibility[i]);
        seqs::lemma_first_exists(visibility, p, i);
    } else {
        assert forall|i: int| 0 <= i < visibility.len() implies understood(
            #[trigger] visibility[i],
        ) by {
            assert(!p(visibility[i]));
        }
    }
}

/// Between packages, a target with nothing but the two known labels is open where one of them is
/// `//visibility:public` and closed where none is; any other label closes it, and the first of them
/// is the one that the failure shows.
pub proof fn law_visibility_labels_decide(
    parent_pkg: Seq<char>,
    dep_pkg: Seq<char>,
    parent_label: Seq<char>,
    dep_label: Seq<char>,
    visibility: Seq<Seq<char>>,
)
    requires
        parent_pkg != dep_pkg,
    ensures
        (forall|i: int|
            0 <= i < visibility.len() ==> #[trigger] visibility[i] == "//visibility:public"@
                || visibility[i] == "//visibility:private"@) ==> admitted(
            parent_pkg,
            dep_pkg,
            parent_label,
            dep_label,
            visibility,
        ) == (if visibility.contains("//visibility:public"@) {
            Ok::<(), ErrorView>(())
        } else {
            Err(
                ErrorView::Invalid {
                    what: "visibility"@,
                    detail: "target '"@ + dep_label + "' is not visible to '"@ + parent_label
                        + "' (default private; add visibility = [\"//visibility:public\"])"@,
                },
            )
        }),
        forall|i: int|
            0 <= i < visibility.len() && #[trigger] visibility[i] != "//visibility:public"@
                && visibility[i] != "//visibility:private"@ && (forall|j: int|
                0 <= j < i ==> #[trigger] visibility[j] == "//visibility:public"@ || visibility[j]
                    == "//visibility:private"@) ==> admitted(
                parent_pkg,
                dep_pkg,
                parent_label,
                dep_label,
                visibility,
            ) == Err::<(), ErrorView>(
                ErrorView::Unsupported {
                    what: "visibility form"@,
                    detail: "unsupported visibility '"@ + visibility[i] + "' on '"@ + dep_label
                        + "' (v1: //visibility:public|private only)"@,
                },
            ),
{
    let p = |v: Seq<char>| !understood(v);
    if forall|i: int|
        0 <= i < visibility.len() ==> #[trigger] visibility[i] == "//visibility:public"@
            || visibility[i] == "//visibility:private"@ {
        if seqs::first(visibility, p) is Some {
            let k = choose|k: int| seqs::first_where(visibility, p, k);
            assert(seqs::first_where(visibility, p, k));
            assert(visibility[k] == "//visibility:public"@ || visibility[k]
                == "//visibility:private"@);
        }
    }
    assert forall|i: int|
        0 <= i < visibility.len() && #[trigger] visibility[i] != "//visibility:public"@
            && visibility[i] != "//visibility:private"@ && (forall|j: int|
            0 <= j < i ==> #[trigger] visibility[j] == "//visibility:public"@ || visibility[j]
                == "//visibility:private"@) implies admitted(
        parent_pkg,
        dep_pkg,
        parent_label,
        dep_label,
        visibility,
    ) == Err::<(), ErrorView>(
        ErrorView::Unsupported {
            what: "visibility form"@,
            detail: "unsupported visibility '"@ + visibility[i] + "' on '"@ + dep_label
                + "' (v1: //visibility:public|private only)"@,
        },
    ) by {
        assert forall|j: int| 0 <= j < i implies !p(#[trigger] visibility[j]) by {
            assert(visibility[j] == "//visibility:public"@ || visibility[j]
                == "//visibility:private"@);
        }
        assert(seqs::first_where(visibility, p, i));
        seqs::lemma_first_at(visibility, p, i);
    }
}

/// The visibility of a target is what its `visibility` attribute names; without one it has none.
pub proof fn law_visibility_is_the_attribute(target: DeclView, i: int)
    ensures
        0 <= i < target.attrs.len() && target.attrs[i].0 == "visibility"@ && (forall|j: int|
            0 <= j < i ==> (#[trigger] target.attrs[j]).0 != "visibility"@) ==> visibility_of(target)
            == value::labels_in(target.attrs[i].1),
        (forall|j: int|
            0 <= j < target.attrs.len() ==> (#[trigger] target.attrs[j]).0 != "visibility"@)
            ==> visibility_of(target).len() == 0,
{
    value::lemma_lookup(target.attrs, "visibility"@);
}

/// A private target is open to its own package and to no other; a public one is open to all.
pub proof fn law_private_targets_are_closed(
    parent_pkg: &str,
    dep_pkg: &str,
    parent_label: &str,
    dep_label: &str,
    dep_visibility: &[String],
    r: Result<(), Error>,
)
    requires
        call_ensures(
            check_visibility,
            (parent_pkg, dep_pkg, parent_label, dep_label, dep_visibility),
            r,
        ),
    ensures
        dep_visibility@.len() == 0 ==> (r is Ok <==> parent_pkg@ == dep_pkg@),
        dep_visibility@.len() == 1 && dep_visibility@[0]@ == "//visibility:public"@ ==> r is Ok,
{
    let v = text::texts(dep_visibility@);
    if parent_pkg@ != dep_pkg@ {
        law_visibility_labels_decide(parent_pkg@, dep_pkg@, parent_label@, dep_label@, v);
        if dep_visibility@.len() == 1 && dep_visibility@[0]@ == "//visibility:public"@ {
            assert(v[0] == "//visibility:public"@);
            assert(v.contains("//visibility:public"@));
        }
        if dep_visibility@.len() == 0 {
            assert(!v.contains("//visibility:public"@));
        }
    }
}

/// The visibility of a target names the strings of its first `visibility` attribute, alone or in a
/// list; without one it names nothing.
pub proof fn law_visibility_is_read_of_the_attribute(
    target: TargetDecl,
    r: Vec<String>,
    i: int,
    l: Seq<char>,
)
    requires
        call_ensures(target_visibility, (&target,), r),
    ensures
        0 <= i < target.attrs@.len() && target.attrs@[i].0@ == "visibility"@ && (forall|j: int|
            0 <= j < i ==> (#[trigger] target.attrs@[j]).0@ != "visibility"@) ==> (text::texts(
            r@,
        ).contains(l) <==> (target.attrs@[i].1@ == ValueView::Str(l) || (
        target.attrs@[i].1@ matches ValueView::List(items) && items.contains(ValueView::Str(l))))),
        (forall|j: int|
            0 <= j < target.attrs@.len() ==> (#[trigger] target.attrs@[j]).0@ != "visibility"@)
            ==> r@.len() == 0,
{
    let all = target@.attrs;
    law_visibility_is_the_attribute(target@, i);
    assert forall|j: int| 0 <= j < all.len() implies (#[trigger] all[j]).0
        == target.attrs@[j].0@ by {}
    if 0 <= i < all.len() {
        value::law_labels_are_the_strings(all[i].1, l);
        assert(all[i].1 == target.attrs@[i].1@);
    }
    assert(text::texts(r@).len() == r@.len());
}

} // verus!
