//! Build-system coordinates: `scheme:payload` strings parsed into typed
//! targets, Bazel-style labels with a canonical display form, and sets of
//! coordinates annotated with a uniformity flag.

use crate::chars::{
    dslash_at, eq_ascii_ci, find_char, find_dslash, first_at, first_dslash, has_char,
    join_with, lemma_first_at_concat, lemma_join_push, lemma_split_join, split_at_char,
    split_string, substr_string, views_of,
};
use vstd::prelude::*;

verus! {

/// The target part of a label: an explicit name, or the recursive wildcard
/// written `/...`.
#[derive(Debug, Clone)]
pub enum TargetName {
    Name(String),
    Ellipsis,
}

/// Mathematical form of a `TargetName`.
#[verifier::ext_equal]
pub enum TargetNameView {
    Name(Seq<char>),
    Ellipsis,
}

impl View for TargetName {
    type V = TargetNameView;

    open spec fn view(&self) -> TargetNameView {
        match self {
            TargetName::Name(s) => TargetNameView::Name(s@),
            TargetName::Ellipsis => TargetNameView::Ellipsis,
        }
    }
}

/// A Bazel-style label referring to a specific target, such as
/// `//foo/bar:baz` or `@repo//foo/...`.
///
/// If no explicit target name is given, it is inferred from the last path
/// component, so `//foo/bar` names the target `bar`.
#[derive(Debug, Clone)]
pub struct Label {
    /// For a label like `@foo//bar:baz` this is `@foo`; `None` when the label
    /// has no `@`-component.
    pub external_repository: Option<String>,
    /// The directory components of the path after `//`. The leading `//` is
    /// optional on input and inferred if absent.
    pub path_components: Vec<String>,
    /// The target: a name, or the ellipsis wildcard.
    pub target_name: TargetName,
}

/// Mathematical form of a `Label`.
#[verifier::ext_equal]
pub struct LabelView {
    pub external_repository: Option<Seq<char>>,
    pub path_components: Seq<Seq<char>>,
    pub target_name: TargetNameView,
}

impl View for Label {
    type V = LabelView;

    open spec fn view(&self) -> LabelView {
        LabelView {
            external_repository: match &self.external_repository {
                Some(s) => Some(s@),
                None => None,
            },
            path_components: views_of(self.path_components@),
            target_name: self.target_name@,
        }
    }
}

/// The ellipsis token `...`.
pub open spec fn ellipsis_chars() -> Seq<char> {
    seq!['.', '.', '.']
}

/// What parsing a label string yields.
///
/// The input is split once on the first `//`; what precedes a non-leading
/// `//` is the external-repository token. The remainder is split on `/`; the
/// final piece is the ellipsis wildcard, or is split once on the first `:`
/// into a last path component and a target name, the name defaulting to the
/// component itself when no `:` is present.
pub open spec fn parse_label(s: Seq<char>) -> LabelView {
    let d = first_dslash(s);
    let ext = if d <= 0 {
        None
    } else {
        Some(s.take(d))
    };
    let rest = if d == -1 {
        s
    } else {
        s.skip(d + 2)
    };
    let toks = split_at_char(rest, '/');
    let last = toks.last();
    let init = toks.drop_last();
    if last == ellipsis_chars() {
        LabelView { external_repository: ext, path_components: init, target_name: TargetNameView::Ellipsis }
    } else {
        let i = first_at(last, ':');
        let lc = if i == -1 {
            last
        } else {
            last.take(i)
        };
        let nm = if i == -1 {
            last
        } else {
            last.skip(i + 1)
        };
        LabelView {
            external_repository: ext,
            path_components: init.push(lc),
            target_name: TargetNameView::Name(nm),
        }
    }
}

/// The canonical display of a label: always begins with `//`, omits the
/// external repository, and ends in `:name` or `/...`.
pub open spec fn display_of(l: LabelView) -> Seq<char> {
    seq!['/', '/'] + join_with(l.path_components, '/') + (match l.target_name {
        TargetNameView::Name(n) => seq![':'] + n,
        TargetNameView::Ellipsis => seq!['/', '.', '.', '.'],
    })
}

/// The labels whose canonical display parses back to themselves: no external
/// repository (display omits it), at least one path component, no `/` inside
/// a component or a target name, and no `:` inside the last component.
pub open spec fn label_wf(l: LabelView) -> bool {
    &&& l.external_repository is None
    &&& l.path_components.len() >= 1
    &&& forall|k: int|
        0 <= k < l.path_components.len() ==> !has_char(#[trigger] l.path_components[k], '/')
    &&& match l.target_name {
        TargetNameView::Name(n) => !has_char(n, '/') && !has_char(l.path_components.last(), ':'),
        TargetNameView::Ellipsis => true,
    }
}

/// Law: parsing the canonical display of a well-formed label yields the
/// label back. Together with the totality of `Label::from_str` this makes
/// the display form a fixed point of display-then-parse.
pub proof fn lemma_parse_display_roundtrip(l: LabelView)
    requires
        label_wf(l),
    ensures
        parse_label(display_of(l)) == l,
{
    let cs = l.path_components;
    let s = display_of(l);
    let dd = seq!['/', '/'];
    let tri = ellipsis_chars();
    assert forall|k: int| 0 <= k < tri.len() implies tri[k] == '.' by {
    }
    assert(!has_char(tri, '/'));
    assert(s[0] == '/' && s[1] == '/');
    assert(dslash_at(s, 0));
    crate::chars::lemma_first_dslash_is(s, 0);
    assert(first_dslash(s) == 0);
    match l.target_name {
        TargetNameView::Ellipsis => {
            let ds = cs.push(tri);
            assert(s.skip(2) =~= join_with(cs, '/') + seq!['/'] + tri);
            lemma_join_push(cs, tri, '/');
            assert(s.skip(2) == join_with(ds, '/'));
            assert(forall|k: int| 0 <= k < ds.len() ==> !has_char(#[trigger] ds[k], '/'));
            lemma_split_join(ds, '/');
            let toks = split_at_char(s.skip(2), '/');
            assert(toks == ds);
            assert(toks.last() == tri);
            assert(toks.drop_last() =~= cs);
            assert(parse_label(s) =~= l);
        },
        TargetNameView::Name(n) => {
            let front = cs.drop_last();
            let lc = cs.last();
            let cn = lc + seq![':'] + n;
            let ds = front.push(cn);
            assert(cs =~= front.push(lc));
            if front.len() == 0 {
                assert(join_with(cs, '/') == lc);
                assert(join_with(ds, '/') == cn);
                assert(s.skip(2) =~= cn);
            } else {
                lemma_join_push(front, lc, '/');
                lemma_join_push(front, cn, '/');
                assert(join_with(ds, '/') == join_with(front, '/') + seq!['/'] + cn);
                assert(s.skip(2) =~= (join_with(front, '/') + seq!['/'] + lc) + seq![':'] + n);
                assert(join_with(front, '/') + seq!['/'] + cn =~= (join_with(front, '/')
                    + seq!['/'] + lc) + seq![':'] + n);
            }
            assert(s.skip(2) == join_with(ds, '/'));
            assert(!has_char(lc, '/'));
            assert(!has_char(n, '/'));
            assert forall|k: int| 0 <= k < cn.len() implies cn[k] != '/' by {
                if k < lc.len() {
                    assert(cn[k] == lc[k]);
                    assert(!(0 <= k < lc.len() && lc[k] == '/'));
                } else if k == lc.len() {
                    assert(cn[k] == ':');
                } else {
                    assert(cn[k] == n[k - lc.len() - 1]);
                    assert(!(0 <= k - lc.len() - 1 < n.len() && n[k - lc.len() - 1] == '/'));
                }
            }
            assert(!has_char(cn, '/'));
            assert forall|k: int| 0 <= k < ds.len() implies !has_char(#[trigger] ds[k], '/') by {
                if k < front.len() {
                    assert(ds[k] == cs[k]);
                }
            }
            lemma_split_join(ds, '/');
            let toks = split_at_char(s.skip(2), '/');
            assert(toks == ds);
            assert(toks.last() == cn);
            assert(cn[lc.len() as int] == ':');
            if cn == tri {
                assert(cn.len() == 3);
                assert(0 <= lc.len() < 3);
                assert(tri[lc.len() as int] == '.');
            }
            assert(cn != tri);
            lemma_first_at_concat(lc, n, ':');
            assert(first_at(cn, ':') == lc.len());
            assert(cn.take(lc.len() as int) =~= lc);
            assert(cn.skip(lc.len() as int + 1) =~= n);
            assert(toks.drop_last() =~= front);
            assert(toks.drop_last().push(lc) =~= cs);
            assert(parse_label(s) =~= l);
        },
    }
}

/// Parsing an input without an external-repository part yields a well-formed
/// label, unless the parse is the ellipsis form with no path component left.
pub proof fn lemma_parse_label_wf(s: Seq<char>)
    requires
        first_dslash(s) <= 0,
    ensures
        parse_label(s).target_name is Name || parse_label(s).path_components.len() >= 1
            ==> label_wf(parse_label(s)),
{
    let l = parse_label(s);
    let d = first_dslash(s);
    let rest = if d == -1 {
        s
    } else {
        s.skip(d + 2)
    };
    let toks = split_at_char(rest, '/');
    crate::chars::lemma_split_pieces_free(rest, '/');
    let last = toks.last();
    let init = toks.drop_last();
    assert(!has_char(last, '/'));
    assert(forall|k: int| 0 <= k < init.len() ==> !has_char(#[trigger] init[k], '/'));
    if last == ellipsis_chars() {
        if l.path_components.len() >= 1 {
            assert(label_wf(l));
        }
    } else {
        crate::chars::lemma_first_at(last, ':');
        let i = first_at(last, ':');
        let lc = if i == -1 {
            last
        } else {
            last.take(i)
        };
        let nm = if i == -1 {
            last
        } else {
            last.skip(i + 1)
        };
        assert forall|j: int| 0 <= j < lc.len() implies lc[j] != ':' by {
            if i != -1 {
                assert(lc[j] == last[j]);
            }
        }
        assert(!has_char(lc, ':'));
        if i != -1 {
            assert forall|j: int| 0 <= j < lc.len() implies lc[j] != '/' by {
                assert(lc[j] == last[j]);
                assert(!(0 <= j < last.len() && last[j] == '/'));
            }
            assert forall|j: int| 0 <= j < nm.len() implies nm[j] != '/' by {
                assert(nm[j] == last[j + i + 1]);
                assert(!(0 <= j + i + 1 < last.len() && last[j + i + 1] == '/'));
            }
        }
        assert(!has_char(lc, '/'));
        assert(!has_char(nm, '/'));
        assert forall|k: int| 0 <= k < l.path_components.len() implies !has_char(
            #[trigger] l.path_components[k],
            '/',
        ) by {
            if k < init.len() {
                assert(l.path_components[k] == init[k]);
            } else {
                assert(l.path_components[k] == lc);
            }
        }
        assert(l.path_components.last() == lc);
        assert(label_wf(l));
    }
}

/// Law: for an input without an external-repository part, whose parse keeps
/// at least one path component, the canonical display of the parse is a
/// fixed point — re-parsing it yields the same label.
pub proof fn lemma_display_parse_fixed_point(s: Seq<char>)
    requires
        first_dslash(s) <= 0,
        parse_label(s).target_name is Name || parse_label(s).path_components.len() >= 1,
    ensures
        parse_label(display_of(parse_label(s))) == parse_label(s),
{
    lemma_parse_label_wf(s);
    lemma_parse_display_roundtrip(parse_label(s));
}

/// Error from parsing a label. The grammar is total — every string parses —
/// so the variant is never produced; it is kept for callers that match on it.
#[derive(Debug, Clone)]
pub enum LabelParseError {
    NoTargetName,
}

impl Label {
    /// Parses a label string. Parsing is total: the result is always `Ok`,
    /// and holds exactly `parse_label` of the input.
    pub fn from_str(s: &str) -> (r: Result<Label, LabelParseError>)
        ensures
            r matches Ok(l) && l@ == parse_label(s@),
    {
        let n = s.unicode_len();
        let ghost d = first_dslash(s@);
        let mut ext: Option<String> = None;
        let mut rest_start: usize = 0;
        match find_dslash(s) {
            None => {
            },
            Some(i) => {
                if i == 0 {
                    rest_start = 2;
                } else {
                    ext = Some(substr_string(s, 0, i));
                    rest_start = i + 2;
                }
            },
        }
        let rest = s.substring_char(rest_start, n);
        proof {
            if d == -1 {
                assert(rest@ =~= s@);
            } else {
                assert(rest@ =~= s@.skip(d + 2));
            }
        }
        let ghost spec_toks = split_at_char(rest@, '/');
        let mut toks = split_string(rest, '/');
        let last = toks.pop().unwrap();
        proof {
            assert(last@ == spec_toks.last());
            assert(views_of(toks@) =~= spec_toks.drop_last());
        }
        let ell = String::from_str("...");
        proof {
            reveal_strlit("...");
            assert(ell@ =~= ellipsis_chars());
        }
        if last == ell {
            let l = Label {
                external_repository: ext,
                path_components: toks,
                target_name: TargetName::Ellipsis,
            };
            proof {
                assert(l@ =~= parse_label(s@));
            }
            Ok(l)
        } else {
            let last_str = last.as_str();
            let ln = last_str.unicode_len();
            let mut toks = toks;
            match find_char(last_str, ':') {
                Some(i) => {
                    let lc = substr_string(last_str, 0, i);
                    let nm = substr_string(last_str, i + 1, ln);
                    proof {
                        assert(lc@ =~= last@.take(i as int));
                        assert(nm@ =~= last@.skip(i + 1));
                        assert(views_of(toks@.push(lc)) =~= views_of(toks@).push(lc@));
                    }
                    toks.push(lc);
                    let l = Label {
                        external_repository: ext,
                        path_components: toks,
                        target_name: TargetName::Name(nm),
                    };
                    proof {
                        assert(l@ =~= parse_label(s@));
                    }
                    Ok(l)
                },
                None => {
                    let lc = substr_string(last_str, 0, ln);
                    proof {
                        assert(lc@ =~= last@);
                        assert(views_of(toks@.push(lc)) =~= views_of(toks@).push(lc@));
                    }
                    toks.push(lc);
                    let l = Label {
                        external_repository: ext,
                        path_components: toks,
                        target_name: TargetName::Name(last),
                    };
                    proof {
                        assert(l@ =~= parse_label(s@));
                    }
                    Ok(l)
                },
            }
        }
    }

    /// Renders the canonical display form, `//p1/p2:name` or `//p1/p2/...`.
    pub fn display(&self) -> (r: String)
        ensures
            r@ == display_of(self@),
    {
        let mut out = String::from_str("//");
        proof {
            reveal_strlit("//");
            reveal_strlit("/");
            reveal_strlit(":");
            reveal_strlit("/...");
            assert(out@ =~= seq!['/', '/']);
            assert("/"@ =~= seq!['/']);
            assert(":"@ =~= seq![':']);
            assert("/..."@ =~= seq!['/', '.', '.', '.']);
        }
        let ghost cs = views_of(self.path_components@);
        let n = self.path_components.len();
        let mut k: usize = 0;
        proof {
            assert(out@ =~= seq!['/', '/'] + join_with(cs.take(0), '/'));
        }
        while k < n
            invariant
                n == self.path_components@.len(),
                k <= n,
                cs == views_of(self.path_components@),
                out@ == seq!['/', '/'] + join_with(cs.take(k as int), '/'),
            decreases n - k,
        {
            let ghost entry = out@;
            if k > 0 {
                out.append("/");
            }
            let comp: &String = &self.path_components[k];
            proof {
                assert(comp@ == cs[k as int]);
            }
            out.append(comp.as_str());
            proof {
                if k > 0 {
                    reveal_strlit("/");
                    assert(out@ == (entry + "/"@) + comp@);
                    assert("/"@ =~= seq!['/']);
                    assert(out@ == (entry + seq!['/']) + cs[k as int]);
                }
                let prev = cs.take(k as int);
                assert(cs.take(k + 1) =~= prev.push(cs[k as int]));
                if k == 0 {
                    assert(join_with(cs.take(1), '/') == cs[0]);
                    assert(out@ =~= seq!['/', '/'] + join_with(cs.take(1), '/'));
                } else {
                    lemma_join_push(prev, cs[k as int], '/');
                    assert(join_with(cs.take(k + 1), '/') == join_with(prev, '/') + seq!['/']
                        + cs[k as int]);
                    assert(out@ =~= seq!['/', '/'] + (join_with(prev, '/') + seq!['/']
                        + cs[k as int]));
                }
            }
            k += 1;
        }
        proof {
            assert(cs.take(n as int) =~= cs);
        }
        match &self.target_name {
            TargetName::Name(nm) => {
                out.append(":");
                out.append(nm.as_str());
                proof {
                    assert(out@ =~= display_of(self@));
                }
            },
            TargetName::Ellipsis => {
                out.append("/...");
                proof {
                    assert(out@ =~= display_of(self@));
                }
            },
        }
        out
    }
}

/// A user-supplied build coordinate.
#[derive(Debug, Clone)]
pub enum Coordinate {
    /// A Bazel target like `//foo/bar:baz`.
    Bazel(Label),
    /// A specific directory within the repository.
    Directory(String),
    /// A Pants package like `foo/bar:baz`.
    Pants(String),
}

/// Mathematical form of a `Coordinate`.
#[verifier::ext_equal]
pub enum CoordinateView {
    Bazel(LabelView),
    Directory(Seq<char>),
    Pants(Seq<char>),
}

impl View for Coordinate {
    type V = CoordinateView;

    open spec fn view(&self) -> CoordinateView {
        match self {
            Coordinate::Bazel(l) => CoordinateView::Bazel(l@),
            Coordinate::Directory(d) => CoordinateView::Directory(d@),
            Coordinate::Pants(p) => CoordinateView::Pants(p@),
        }
    }
}

/// Error from parsing a coordinate string.
#[derive(Debug, Clone)]
pub enum CoordinateError {
    /// The scheme before the first `:` is not one of the supported ones; the
    /// payload is that scheme, verbatim.
    UnsupportedScheme(String),
    /// The input holds no `:` and so cannot be split into scheme and payload.
    TokenizationError,
    /// The payload of a `bazel:` coordinate failed to parse as a label.
    LabelError(LabelParseError),
}

/// The scheme token `bazel`.
pub open spec fn bazel_scheme() -> Seq<char> {
    seq!['b', 'a', 'z', 'e', 'l']
}

/// The scheme token `directory`.
pub open spec fn directory_scheme() -> Seq<char> {
    seq!['d', 'i', 'r', 'e', 'c', 't', 'o', 'r', 'y']
}

/// The scheme token `pants`.
pub open spec fn pants_scheme() -> Seq<char> {
    seq!['p', 'a', 'n', 't', 's']
}

/// What parsing a coordinate string yields: a target, an unsupported scheme
/// (carried verbatim), or a tokenization failure when no `:` is present.
#[verifier::ext_equal]
pub enum ParsedCoordinate {
    Parsed(CoordinateView),
    UnknownScheme(Seq<char>),
    NoSeparator,
}

/// Parsing a coordinate: split once on the first `:`; the scheme before it is
/// matched case-insensitively; the payload after it is parsed as a label for
/// `bazel` and taken verbatim for `directory` and `pants`.
pub open spec fn coordinate_parse(s: Seq<char>) -> ParsedCoordinate {
    let i = first_at(s, ':');
    if i == -1 {
        ParsedCoordinate::NoSeparator
    } else {
        let prefix = s.take(i);
        let rest = s.skip(i + 1);
        if eq_ascii_ci(prefix, bazel_scheme()) {
            ParsedCoordinate::Parsed(CoordinateView::Bazel(parse_label(rest)))
        } else if eq_ascii_ci(prefix, directory_scheme()) {
            ParsedCoordinate::Parsed(CoordinateView::Directory(rest))
        } else if eq_ascii_ci(prefix, pants_scheme()) {
            ParsedCoordinate::Parsed(CoordinateView::Pants(rest))
        } else {
            ParsedCoordinate::UnknownScheme(prefix)
        }
    }
}

/// Whether error `e` is the one `coordinate_parse` assigns to the input.
pub open spec fn error_reflects(e: CoordinateError, p: ParsedCoordinate) -> bool {
    match e {
        CoordinateError::UnsupportedScheme(s) => p == ParsedCoordinate::UnknownScheme(s@),
        CoordinateError::TokenizationError => p == ParsedCoordinate::NoSeparator,
        CoordinateError::LabelError(_) => false,
    }
}

impl Coordinate {
    /// Parses a coordinate string. Succeeds exactly when the input holds a
    /// `:` and the scheme before the first `:` is (case-insensitively) one of
    /// `bazel`, `directory`, `pants`; the errors report the other cases.
    pub fn try_from(value: &str) -> (r: Result<Coordinate, CoordinateError>)
        ensures
            match r {
                Ok(c) => coordinate_parse(value@) == ParsedCoordinate::Parsed(c@),
                Err(e) => error_reflects(e, coordinate_parse(value@)),
            },
    {
        match find_char(value, ':') {
            None => Err(CoordinateError::TokenizationError),
            Some(i) => {
                let n = value.unicode_len();
                let prefix = value.substring_char(0, i);
                let rest = substr_string(value, i + 1, n);
                proof {
                    reveal_strlit("bazel");
                    reveal_strlit("directory");
                    reveal_strlit("pants");
                    assert("bazel"@ =~= bazel_scheme());
                    assert("directory"@ =~= directory_scheme());
                    assert("pants"@ =~= pants_scheme());
                    assert(prefix@ =~= value@.take(i as int));
                    assert(rest@ =~= value@.skip(i + 1));
                }
                if crate::chars::eq_ignore_ascii_case(prefix, "bazel") {
                    match Label::from_str(rest.as_str()) {
                        Ok(label) => Ok(Coordinate::Bazel(label)),
                        Err(e) => Err(CoordinateError::LabelError(e)),
                    }
                } else if crate::chars::eq_ignore_ascii_case(prefix, "directory") {
                    Ok(Coordinate::Directory(rest))
                } else if crate::chars::eq_ignore_ascii_case(prefix, "pants") {
                    Ok(Coordinate::Pants(rest))
                } else {
                    Err(CoordinateError::UnsupportedScheme(String::from_str(prefix)))
                }
            },
        }
    }

    /// The display form: the label's canonical form for `bazel` targets, the
    /// payload verbatim otherwise.
    pub fn display(&self) -> (r: String)
        ensures
            r@ == coordinate_display_of(self@),
    {
        match self {
            Coordinate::Bazel(l) => l.display(),
            Coordinate::Directory(d) => String::from_str(d.as_str()),
            Coordinate::Pants(p) => String::from_str(p.as_str()),
        }
    }
}

/// Display of a coordinate's payload.
pub open spec fn coordinate_display_of(c: CoordinateView) -> Seq<char> {
    match c {
        CoordinateView::Bazel(l) => display_of(l),
        CoordinateView::Directory(d) => d,
        CoordinateView::Pants(p) => p,
    }
}

impl PartialEq for TargetName {
    /// Equality of target names is equality of their mathematical forms.
    fn eq(&self, other: &Self) -> (r: bool) {
        match (self, other) {
            (TargetName::Name(a), TargetName::Name(b)) => *a == *b,
            (TargetName::Ellipsis, TargetName::Ellipsis) => true,
            _ => false,
        }
    }
}

impl vstd::std_specs::cmp::PartialEqSpecImpl for TargetName {
    open spec fn obeys_eq_spec() -> bool {
        true
    }

    open spec fn eq_spec(&self, other: &Self) -> bool {
        self@ == other@
    }
}

impl PartialEq for Label {
    /// Equality of labels is equality of their mathematical forms.
    fn eq(&self, other: &Self) -> (r: bool) {
        let ext_eq: bool = match (&self.external_repository, &other.external_repository) {
            (Some(a), Some(b)) => *a == *b,
            (None, None) => true,
            _ => false,
        };
        let name_eq: bool = self.target_name == other.target_name;
        let comps_eq: bool = crate::chars::vec_string_eq(
            &self.path_components,
            &other.path_components,
        );
        let r = ext_eq && name_eq && comps_eq;
        proof {
            if r {
                assert(self@ =~= other@);
            }
        }
        r
    }
}

impl vstd::std_specs::cmp::PartialEqSpecImpl for Label {
    open spec fn obeys_eq_spec() -> bool {
        true
    }

    open spec fn eq_spec(&self, other: &Self) -> bool {
        self@ == other@
    }
}

impl PartialEq for Coordinate {
    /// Equality of coordinates is equality of their mathematical forms.
    fn eq(&self, other: &Self) -> (r: bool) {
        match (self, other) {
            (Coordinate::Bazel(a), Coordinate::Bazel(b)) => *a == *b,
            (Coordinate::Directory(a), Coordinate::Directory(b)) => *a == *b,
            (Coordinate::Pants(a), Coordinate::Pants(b)) => *a == *b,
            _ => false,
        }
    }
}

impl vstd::std_specs::cmp::PartialEqSpecImpl for Coordinate {
    open spec fn obeys_eq_spec() -> bool {
        true
    }

    open spec fn eq_spec(&self, other: &Self) -> bool {
        self@ == other@
    }
}

impl PartialEq for LabelParseError {
    fn eq(&self, other: &Self) -> (r: bool) {
        match (self, other) {
            (LabelParseError::NoTargetName, LabelParseError::NoTargetName) => true,
        }
    }
}

impl vstd::std_specs::cmp::PartialEqSpecImpl for LabelParseError {
    open spec fn obeys_eq_spec() -> bool {
        true
    }

    open spec fn eq_spec(&self, other: &Self) -> bool {
        true
    }
}

impl PartialEq for CoordinateError {
    /// Equality of parse errors: same variant, with equal payloads.
    fn eq(&self, other: &Self) -> (r: bool) {
        match (self, other) {
            (CoordinateError::UnsupportedScheme(a), CoordinateError::UnsupportedScheme(b)) => *a
                == *b,
            (CoordinateError::TokenizationError, CoordinateError::TokenizationError) => true,
            (CoordinateError::LabelError(a), CoordinateError::LabelError(b)) => *a == *b,
            _ => false,
        }
    }
}

impl vstd::std_specs::cmp::PartialEqSpecImpl for CoordinateError {
    open spec fn obeys_eq_spec() -> bool {
        true
    }

    open spec fn eq_spec(&self, other: &Self) -> bool {
        match (self, other) {
            (CoordinateError::UnsupportedScheme(a), CoordinateError::UnsupportedScheme(b)) => a@
                == b@,
            (CoordinateError::TokenizationError, CoordinateError::TokenizationError) => true,
            (CoordinateError::LabelError(_), CoordinateError::LabelError(_)) => true,
            _ => false,
        }
    }
}

/// The scheme of a coordinate, used to judge uniformity.
pub enum Scheme {
    Bazel,
    Directory,
    Pants,
}

/// The scheme of a coordinate's mathematical form.
pub open spec fn scheme_of(c: CoordinateView) -> Scheme {
    match c {
        CoordinateView::Bazel(_) => Scheme::Bazel,
        CoordinateView::Directory(_) => Scheme::Directory,
        CoordinateView::Pants(_) => Scheme::Pants,
    }
}

/// The mathematical forms of a sequence of coordinates.
pub open spec fn coordinate_views(s: Seq<Coordinate>) -> Seq<CoordinateView> {
    s.map_values(|c: Coordinate| c@)
}

/// Uniformity: every two members share one scheme. The empty sequence is
/// uniform.
pub open spec fn uniform_views(vs: Seq<CoordinateView>) -> bool {
    forall|i: int, j: int|
        0 <= i < vs.len() && 0 <= j < vs.len() ==> scheme_of(vs[i]) == scheme_of(vs[j])
}

/// No two members are equal: the sequence represents a set.
pub open spec fn distinct_views(vs: Seq<CoordinateView>) -> bool {
    forall|i: int, j: int| 0 <= i < j < vs.len() ==> vs[i] != vs[j]
}

/// Law: uniformity of a collection of coordinates is the same as its members
/// carrying at most one distinct scheme.
pub proof fn lemma_uniformity_is_scheme_count(vs: Seq<CoordinateView>)
    ensures
        uniform_views(vs) <==> vs.map_values(|c: CoordinateView| scheme_of(c)).to_set().len()
            <= 1,
{
    broadcast use vstd::seq_lib::seq_to_set_is_finite;

    let schemes = vs.map_values(|c: CoordinateView| scheme_of(c));
    if uniform_views(vs) {
        if vs.len() == 0 {
            assert(schemes.to_set() =~= Set::<Scheme>::empty());
        } else {
            let s0 = scheme_of(vs[0]);
            assert forall|x: Scheme| schemes.to_set().contains(x) implies x == s0 by {
                let i = choose|i: int| 0 <= i < schemes.len() && schemes[i] == x;
                assert(scheme_of(vs[i]) == x);
            }
            assert(schemes[0] == s0);
            assert(schemes.to_set().contains(s0));
            assert(schemes.to_set() =~= Set::<Scheme>::empty().insert(s0));
        }
    } else {
        let (i0, j0) = choose|i: int, j: int|
            !(0 <= i < vs.len() && 0 <= j < vs.len() ==> scheme_of(vs[i]) == scheme_of(vs[j]));
        let a = scheme_of(vs[i0]);
        let b = scheme_of(vs[j0]);
        assert(schemes[i0] == a);
        assert(schemes[j0] == b);
        let ts = schemes.to_set();
        assert(ts.contains(a));
        assert(ts.contains(b));
        assert(ts.remove(a).contains(b));
        assert(ts.remove(a).len() == ts.len() - 1);
        if ts.remove(a).len() == 0 {
            ts.remove(a).lemma_len0_is_empty();
        }
    }
}

/// Membership in a pushed sequence: the new element, or an old member.
proof fn lemma_push_contains(vs: Seq<CoordinateView>, x: CoordinateView, v: CoordinateView)
    ensures
        vs.push(x).contains(v) <==> (vs.contains(v) || v == x),
{
    if vs.push(x).contains(v) {
        let k = choose|k: int| 0 <= k < vs.push(x).len() && vs.push(x)[k] == v;
        if k < vs.len() {
            assert(vs[k] == v);
        }
    }
    if vs.contains(v) {
        let k = choose|k: int| 0 <= k < vs.len() && vs[k] == v;
        assert(vs.push(x)[k] == v);
    }
    if v == x {
        assert(vs.push(x)[vs.len() as int] == v);
    }
}

/// An unordered, duplicate-free collection of coordinates, annotated with
/// whether all members share one scheme.
#[derive(Debug)]
pub struct CoordinateSet {
    underlying: Vec<Coordinate>,
    uniform: bool,
}

/// Whether some member of `members` equals `c` (by mathematical form).
fn set_has(members: &Vec<Coordinate>, c: &Coordinate) -> (r: bool)
    ensures
        r == exists|j: int| 0 <= j < members@.len() && members@[j]@ == c@,
{
    let n = members.len();
    let mut i: usize = 0;
    while i < n
        invariant
            n == members@.len(),
            i <= n,
            forall|j: int| 0 <= j < i ==> members@[j]@ != c@,
        decreases n - i,
    {
        if members[i].eq(c) {
            proof {
                assert(0 <= i < members@.len() && members@[i as int]@ == c@);
            }
            return true;
        }
        i += 1;
    }
    false
}

impl CoordinateSet {
    /// The members of the set.
    pub closed spec fn members(&self) -> Seq<Coordinate> {
        self.underlying@
    }

    /// The mathematical forms of the members.
    pub open spec fn member_views(&self) -> Seq<CoordinateView> {
        coordinate_views(self.members())
    }

    #[verifier::type_invariant]
    spec fn type_inv(&self) -> bool {
        &&& self.uniform == uniform_views(self.member_views())
        &&& distinct_views(self.member_views())
    }

    /// The members, as stored.
    pub fn underlying(&self) -> (r: &Vec<Coordinate>)
        ensures
            r@ == self.members(),
            distinct_views(self.member_views()),
    {
        proof {
            use_type_invariant(self);
        }
        &self.underlying
    }

    /// Whether all members share one scheme; true for the empty set.
    pub fn is_uniform(&self) -> (r: bool)
        ensures
            r == uniform_views(self.member_views()),
    {
        proof {
            use_type_invariant(self);
        }
        self.uniform
    }

    /// Computes uniformity of a collection: at most one scheme occurs among
    /// its members.
    pub fn determine_uniformity(set: &Vec<Coordinate>) -> (r: bool)
        ensures
            r == uniform_views(coordinate_views(set@)),
    {
        let ghost vs = coordinate_views(set@);
        let mut bazel_count: usize = 0;
        let mut directory_count: usize = 0;
        let mut pants_count: usize = 0;
        let n = set.len();
        let mut i: usize = 0;
        while i < n
            invariant
                vs == coordinate_views(set@),
                n == set@.len(),
                i <= n,
                bazel_count <= i,
                directory_count <= i,
                pants_count <= i,
                (bazel_count > 0) == exists|j: int|
                    0 <= j < i && scheme_of(#[trigger] vs[j]) == Scheme::Bazel,
                (directory_count > 0) == exists|j: int|
                    0 <= j < i && scheme_of(#[trigger] vs[j]) == Scheme::Directory,
                (pants_count > 0) == exists|j: int|
                    0 <= j < i && scheme_of(#[trigger] vs[j]) == Scheme::Pants,
            decreases n - i,
        {
            match &set[i] {
                Coordinate::Bazel(_) => {
                    proof {
                        assert(scheme_of(vs[i as int]) == Scheme::Bazel);
                    }
                    bazel_count += 1;
                },
                Coordinate::Directory(_) => {
                    proof {
                        assert(scheme_of(vs[i as int]) == Scheme::Directory);
                    }
                    directory_count += 1;
                },
                Coordinate::Pants(_) => {
                    proof {
                        assert(scheme_of(vs[i as int]) == Scheme::Pants);
                    }
                    pants_count += 1;
                },
            }
            i += 1;
        }
        let distinct_schemes: usize = (if bazel_count > 0 {
            1
        } else {
            0
        }) + (if directory_count > 0 {
            1
        } else {
            0
        }) + (if pants_count > 0 {
            1
        } else {
            0
        });
        let r = distinct_schemes < 2;
        proof {
            if uniform_views(vs) {
                if bazel_count > 0 && directory_count > 0 {
                    let j1 = choose|j: int|
                        0 <= j < vs.len() && scheme_of(#[trigger] vs[j]) == Scheme::Bazel;
                    let j2 = choose|j: int|
                        0 <= j < vs.len() && scheme_of(#[trigger] vs[j]) == Scheme::Directory;
                    assert(scheme_of(vs[j1]) == scheme_of(vs[j2]));
                }
                if bazel_count > 0 && pants_count > 0 {
                    let j1 = choose|j: int|
                        0 <= j < vs.len() && scheme_of(#[trigger] vs[j]) == Scheme::Bazel;
                    let j2 = choose|j: int|
                        0 <= j < vs.len() && scheme_of(#[trigger] vs[j]) == Scheme::Pants;
                    assert(scheme_of(vs[j1]) == scheme_of(vs[j2]));
                }
                if directory_count > 0 && pants_count > 0 {
                    let j1 = choose|j: int|
                        0 <= j < vs.len() && scheme_of(#[trigger] vs[j]) == Scheme::Directory;
                    let j2 = choose|j: int|
                        0 <= j < vs.len() && scheme_of(#[trigger] vs[j]) == Scheme::Pants;
                    assert(scheme_of(vs[j1]) == scheme_of(vs[j2]));
                }
                assert(r);
            } else {
                let (i0, j0) = choose|i: int, j: int|
                    !(0 <= i < vs.len() && 0 <= j < vs.len() ==> scheme_of(vs[i]) == scheme_of(
                        vs[j],
                    ));
                let a = scheme_of(vs[i0]);
                let b = scheme_of(vs[j0]);
                assert(a == Scheme::Bazel || a == Scheme::Directory || a == Scheme::Pants);
                assert(b == Scheme::Bazel || b == Scheme::Directory || b == Scheme::Pants);
                assert(!r);
            }
        }
        r
    }

    /// Builds a set from a collection of coordinates, keeping one copy of
    /// each member and computing the uniformity flag.
    pub fn from(coordinates: Vec<Coordinate>) -> (r: Self)
        ensures
            distinct_views(r.member_views()),
            forall|v: CoordinateView|
                #[trigger] r.member_views().contains(v) <==> coordinate_views(
                    coordinates@,
                ).contains(v),
    {
        let ghost orig = coordinates@;
        let mut input = coordinates;
        let mut members: Vec<Coordinate> = Vec::new();
        proof {
            assert(orig.take(input@.len() as int) =~= input@);
        }
        while input.len() > 0
            invariant
                input@.len() <= orig.len(),
                input@ == orig.take(input@.len() as int),
                distinct_views(coordinate_views(members@)),
                forall|v: CoordinateView|
                    #[trigger] coordinate_views(members@).contains(v) <==> exists|j: int|
                        input@.len() <= j < orig.len() && #[trigger] orig[j]@ == v,
            decreases input@.len(),
        {
            let ghost prev = input@;
            let ghost mvs = coordinate_views(members@);
            let c = input.pop().unwrap();
            proof {
                assert(prev == orig.take(prev.len() as int));
                assert(c == prev[prev.len() - 1]);
                assert(c == orig[prev.len() - 1]);
                assert(input@ =~= orig.take(input@.len() as int));
            }
            let ghost cut = input@.len() as int;
            let absent = !set_has(&members, &c);
            proof {
                if !absent {
                    let jw = choose|j: int| 0 <= j < members@.len() && members@[j]@ == c@;
                    assert(coordinate_views(members@)[jw] == c@);
                    assert(mvs.contains(c@));
                }
            }
            if absent {
                members.push(c);
                proof {
                    assert(coordinate_views(members@) =~= mvs.push(c@));
                    assert forall|i: int, j: int|
                        0 <= i < j < coordinate_views(members@).len() implies coordinate_views(
                        members@,
                    )[i] != coordinate_views(members@)[j] by {
                        if j == mvs.len() {
                            assert(members@[i]@ != c@);
                        }
                    }
                    assert forall|v: CoordinateView| #[trigger]
                        coordinate_views(members@).contains(v) <==> exists|j: int|
                        cut <= j < orig.len() && #[trigger] orig[j]@ == v by {
                        lemma_push_contains(mvs, c@, v);
                        if coordinate_views(members@).contains(v) {
                            if v == c@ {
                                assert(orig[cut]@ == v);
                            } else {
                                let j = choose|j: int|
                                    prev.len() <= j < orig.len() && #[trigger] orig[j]@ == v;
                                assert(cut <= j < orig.len() && orig[j]@ == v);
                            }
                        }
                        if exists|j: int| cut <= j < orig.len() && #[trigger] orig[j]@ == v {
                            let j = choose|j: int|
                                cut <= j < orig.len() && #[trigger] orig[j]@ == v;
                            if j == cut {
                                assert(v == c@);
                            } else {
                                assert(prev.len() <= j < orig.len() && orig[j]@ == v);
                                assert(mvs.contains(v));
                            }
                        }
                    }
                }
            } else {
                proof {
                    assert forall|v: CoordinateView| #[trigger]
                        coordinate_views(members@).contains(v) <==> exists|j: int|
                        cut <= j < orig.len() && #[trigger] orig[j]@ == v by {
                        if coordinate_views(members@).contains(v) {
                            let j = choose|j: int|
                                prev.len() <= j < orig.len() && #[trigger] orig[j]@ == v;
                            assert(cut <= j < orig.len() && orig[j]@ == v);
                        }
                        if exists|j: int| cut <= j < orig.len() && #[trigger] orig[j]@ == v {
                            let j = choose|j: int|
                                cut <= j < orig.len() && #[trigger] orig[j]@ == v;
                            if j == cut {
                                assert(v == c@);
                            } else {
                                assert(prev.len() <= j < orig.len() && orig[j]@ == v);
                            }
                        }
                    }
                }
            }
        }
        let uniform = Self::determine_uniformity(&members);
        let r = CoordinateSet { underlying: members, uniform };
        proof {
            assert forall|v: CoordinateView| #[trigger]
                r.member_views().contains(v) <==> coordinate_views(orig).contains(v) by {
                if r.member_views().contains(v) {
                    let j = choose|j: int| 0 <= j < orig.len() && orig[j]@ == v;
                    assert(coordinate_views(orig)[j] == v);
                }
                if coordinate_views(orig).contains(v) {
                    let j = choose|j: int|
                        0 <= j < coordinate_views(orig).len() && coordinate_views(orig)[j] == v;
                    assert(orig[j]@ == v);
                    assert(exists|k: int| 0 <= k < orig.len() && orig[k]@ == v);
                }
            }
        }
        r
    }

    /// Parses each string and builds the set of the parsed coordinates,
    /// returning the first parse error if any string is rejected.
    pub fn try_from(coordinates: &[String]) -> (r: Result<Self, CoordinateError>)
        ensures
            match r {
                Ok(set) => {
                    &&& forall|i: int|
                        0 <= i < coordinates@.len() ==> coordinate_parse(
                            #[trigger] coordinates@[i]@,
                        ) is Parsed
                    &&& distinct_views(set.member_views())
                    &&& forall|v: CoordinateView|
                        #[trigger] set.member_views().contains(v) <==> exists|i: int|
                            0 <= i < coordinates@.len() && coordinate_parse(coordinates@[i]@)
                                == ParsedCoordinate::Parsed(v)
                },
                Err(e) => exists|i: int|
                    {
                        &&& 0 <= i < coordinates@.len()
                        &&& error_reflects(e, coordinate_parse(#[trigger] coordinates@[i]@))
                        &&& forall|j: int|
                            0 <= j < i ==> coordinate_parse(#[trigger] coordinates@[j]@) is Parsed
                    },
            },
    {
        let n = coordinates.len();
        let mut members: Vec<Coordinate> = Vec::new();
        let mut i: usize = 0;
        while i < n
            invariant
                n == coordinates@.len(),
                i <= n,
                forall|j: int|
                    0 <= j < i ==> coordinate_parse(#[trigger] coordinates@[j]@) is Parsed,
                distinct_views(coordinate_views(members@)),
                forall|v: CoordinateView|
                    #[trigger] coordinate_views(members@).contains(v) <==> exists|j: int|
                        0 <= j < i && coordinate_parse(#[trigger] coordinates@[j]@)
                            == ParsedCoordinate::Parsed(v),
            decreases n - i,
        {
            let ghost mvs = coordinate_views(members@);
            match Coordinate::try_from(coordinates[i].as_str()) {
                Ok(c) => {
                    let absent = !set_has(&members, &c);
                    proof {
                        if !absent {
                            let jw = choose|j: int|
                                0 <= j < members@.len() && members@[j]@ == c@;
                            assert(coordinate_views(members@)[jw] == c@);
                            assert(mvs.contains(c@));
                        }
                    }
                    if absent {
                        members.push(c);
                        proof {
                            assert(coordinate_views(members@) =~= mvs.push(c@));
                            assert forall|a: int, b: int|
                                0 <= a < b < coordinate_views(members@).len() implies
                                coordinate_views(members@)[a] != coordinate_views(
                                members@,
                            )[b] by {
                                if b == mvs.len() {
                                    assert(members@[a]@ != c@);
                                }
                            }
                            assert forall|v: CoordinateView| #[trigger]
                                coordinate_views(members@).contains(v) <==> exists|j: int|
                                0 <= j < i + 1 && coordinate_parse(#[trigger] coordinates@[j]@)
                                    == ParsedCoordinate::Parsed(v) by {
                                lemma_push_contains(mvs, c@, v);
                                if coordinate_views(members@).contains(v) {
                                    if v == c@ {
                                        assert(coordinate_parse(coordinates@[i as int]@)
                                            == ParsedCoordinate::Parsed(v));
                                    }
                                }
                                if exists|j: int|
                                    0 <= j < i + 1 && coordinate_parse(
                                        #[trigger] coordinates@[j]@,
                                    ) == ParsedCoordinate::Parsed(v) {
                                    let j = choose|j: int|
                                        0 <= j < i + 1 && coordinate_parse(
                                            #[trigger] coordinates@[j]@,
                                        ) == ParsedCoordinate::Parsed(v);
                                    if j == i {
                                        assert(v == c@);
                                    } else {
                                        assert(mvs.contains(v));
                                    }
                                }
                            }
                        }
                    } else {
                        proof {
                            assert forall|v: CoordinateView| #[trigger]
                                coordinate_views(members@).contains(v) <==> exists|j: int|
                                0 <= j < i + 1 && coordinate_parse(#[trigger] coordinates@[j]@)
                                    == ParsedCoordinate::Parsed(v) by {
                                if exists|j: int|
                                    0 <= j < i + 1 && coordinate_parse(
                                        #[trigger] coordinates@[j]@,
                                    ) == ParsedCoordinate::Parsed(v) {
                                    let j = choose|j: int|
                                        0 <= j < i + 1 && coordinate_parse(
                                            #[trigger] coordinates@[j]@,
                                        ) == ParsedCoordinate::Parsed(v);
                                    if j == i {
                                        assert(v == c@);
                                    }
                                }
                            }
                        }
                    }
                },
                Err(e) => {
                    return Err(e);
                },
            }
            i += 1;
        }
        let uniform = Self::determine_uniformity(&members);
        Ok(CoordinateSet { underlying: members, uniform })
    }
}

} // verus!
