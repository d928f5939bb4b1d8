//! What holds of reading and of rendering, whatever the input.

use crate::descriptor::{narrow, readable, type_token_outcome};
use crate::error::ErrorView;
use crate::render::{
    export_names, import_line, import_lines, module_header, rendered, IMPORTS, PREAMBLE,
};
use crate::signature::{
    arrow, assembled, can_be_read, lemma_collect_all, lemma_collect_first_failure,
    lemma_notation_shape, name_separator, notation, outcomes_of, parsed, trim_each, SignatureView,
};
use crate::text::{
    contains, first_occurrence, is_first_occurrence, join, lemma_first_occurrence,
    lemma_some_occurrence_is_first, lemma_trim_is_a_cut, occurs_at, split, trim,
};
use vstd::prelude::*;
use vstd::utf8::is_ascii_chars;

verus! {

/// The elements of `s` in the order that `order` gives: at place `i` stands
/// the element that `s` has at `order[i]`.
pub open spec fn rearranged<A>(s: Seq<A>, order: Seq<int>) -> Seq<A> {
    Seq::new(order.len(), |i: int| s[order[i]])
}

/// A text without `::` holds no signature.
pub proof fn lemma_without_separator_nothing_is_read(raw: Seq<char>)
    requires
        !contains(raw, name_separator()),
    ensures
        notation(raw) == Err::<(Seq<char>, Seq<Seq<char>>), ErrorView>(ErrorView::MissingSig),
        parsed(raw) == Err::<SignatureView, ErrorView>(ErrorView::MissingSig),
{
}

/// A text whose first `::`, at `at`, is followed by whitespace alone, or by
/// nothing, is malformed.
pub proof fn lemma_without_types_malformed(raw: Seq<char>, at: int)
    requires
        is_first_occurrence(raw, name_separator(), at),
        trim(raw.subrange(at + 2, raw.len() as int)).len() == 0,
    ensures
        parsed(raw) == Err::<SignatureView, ErrorView>(ErrorView::MalformedSig(raw)),
{
    reveal_strlit("::");
    lemma_first_occurrence(raw, name_separator(), at);
}

/// A text that has the form of a signature, and each of whose types the
/// recogniser accepts, is malformed where its name is empty or holds `->`.
pub proof fn lemma_without_valid_name_malformed(raw: Seq<char>)
    requires
        notation(raw) matches Ok((name, tokens)) && (name.len() == 0 || contains(name, arrow()))
            && forall|i: int|
            0 <= i < tokens.len() ==> (#[trigger] type_token_outcome(tokens[i])) is Ok,
    ensures
        parsed(raw) == Err::<SignatureView, ErrorView>(ErrorView::MalformedSig(raw)),
{
    let tokens = notation(raw)->Ok_0.1;
    let outcomes = outcomes_of(tokens);
    assert forall|i: int| 0 <= i < outcomes.len() implies (#[trigger] outcomes[i]) is Ok by {
        assert(outcomes[i] == type_token_outcome(tokens[i]));
    }
    lemma_collect_all(outcomes);
}

/// A text with a second `::`, at `second`, behind its first, at `first`, is
/// malformed, whatever else it holds.
pub proof fn lemma_second_separator_malformed(raw: Seq<char>, first: int, second: int)
    requires
        is_first_occurrence(raw, name_separator(), first),
        occurs_at(raw, name_separator(), second),
        first + 2 <= second,
    ensures
        parsed(raw) == Err::<SignatureView, ErrorView>(ErrorView::MalformedSig(raw)),
{
    reveal_strlit("::");
    lemma_first_occurrence(raw, name_separator(), first);
    let chain = raw.subrange(first + 2, raw.len() as int);
    assert(chain.subrange(second - first - 2, second - first) =~= raw.subrange(
        second,
        second + 2,
    ));
    assert(occurs_at(chain, name_separator(), second - first - 2));
}

/// What joins two parts or more starts with the first part and the
/// separator, and goes on with what joins the others.
pub proof fn lemma_join_from_the_left(parts: Seq<Seq<char>>, sep: Seq<char>)
    requires
        parts.len() >= 2,
    ensures
        join(parts, sep) == parts[0] + sep + join(parts.drop_first(), sep),
    decreases parts.len(),
{
    let front = parts.drop_last();
    let rest = parts.drop_first();
    if parts.len() == 2 {
        assert(join(front, sep) == parts[0]);
        assert(join(rest, sep) == parts[1]);
    } else {
        lemma_join_from_the_left(front, sep);
        assert(rest.drop_last() =~= front.drop_first());
        assert(rest.last() == parts.last());
        assert(front[0] == parts[0]);
        assert(parts[0] + sep + join(front.drop_first(), sep) + sep + parts.last() =~= parts[0]
            + sep + (join(front.drop_first(), sep) + sep + parts.last()));
    }
}

/// Cutting at each `->` gives back the parts that `->` joined, where none of
/// them holds a `->` itself.
pub proof fn lemma_split_of_joined(parts: Seq<Seq<char>>)
    requires
        parts.len() >= 1,
        forall|i: int| 0 <= i < parts.len() ==> !contains(#[trigger] parts[i], arrow()),
    ensures
        split(join(parts, arrow()), arrow()) == parts,
    decreases parts.len(),
{
    reveal_strlit("->");
    let whole = join(parts, arrow());
    if parts.len() == 1 {
        assert(!contains(parts[0], arrow()));
        assert(split(whole, arrow()) =~= parts);
    } else {
        let head = parts[0];
        let rest = parts.drop_first();
        let at = head.len() as int;
        lemma_join_from_the_left(parts, arrow());
        assert(whole.subrange(at, at + 2) =~= arrow());
        assert(!contains(head, arrow()));
        assert forall|j: int| 0 <= j < at implies !occurs_at(whole, arrow(), j) by {
            if occurs_at(whole, arrow(), j) {
                let found = whole.subrange(j, j + 2);
                assert(found[0] == '-' && found[1] == '>');
                if j + 2 <= at {
                    assert(head.subrange(j, j + 2) =~= found);
                    assert(occurs_at(head, arrow(), j));
                } else {
                    assert(whole[j + 1] == arrow()[0]);
                }
            }
        }
        lemma_first_occurrence(whole, arrow(), at);
        assert forall|i: int| 0 <= i < rest.len() implies !contains(#[trigger] rest[i], arrow()) by {
            assert(rest[i] == parts[i + 1]);
        }
        lemma_split_of_joined(rest);
        assert(whole.subrange(0, at) =~= head);
        assert(whole.subrange(at + 2, whole.len() as int) =~= join(rest, arrow()));
        assert(seq![head] + rest =~= parts);
    }
}

/// A text of the form `NAME :: TYPE -> ... -> TYPE` is read as it is written:
/// its name is `NAME`, and its types are what the recogniser of types makes
/// of each `TYPE`, from the left to the right; where it refuses none, the
/// signature holds them in that order.
///
/// The form asks that `NAME` neither holds `::` nor ends in `:`, that it is
/// not blank and holds no `->`, that no `TYPE` holds `->`, and that the types
/// together hold no `::` and something besides whitespace.
pub proof fn lemma_written_signature_is_read(name: Seq<char>, types: Seq<Seq<char>>)
    requires
        !contains(name, name_separator()),
        name.len() > 0 ==> name.last() != ':',
        trim(name).len() > 0,
        !contains(trim(name), arrow()),
        types.len() >= 1,
        forall|i: int| 0 <= i < types.len() ==> !contains(#[trigger] types[i], arrow()),
        !contains(join(types, arrow()), name_separator()),
        trim(join(types, arrow())).len() > 0,
    ensures
        ({
            let raw = name + name_separator() + join(types, arrow());
            let outcomes = outcomes_of(trim_each(types));
            &&& notation(raw) == Ok::<(Seq<char>, Seq<Seq<char>>), ErrorView>(
                (trim(name), trim_each(types)),
            )
            &&& parsed(raw) == assembled(raw, trim(name), outcomes)
            &&& (forall|i: int| 0 <= i < types.len() ==> (#[trigger] outcomes[i]) is Ok)
                ==> parsed(raw) == Ok::<SignatureView, ErrorView>(
                SignatureView {
                    name: trim(name),
                    ordered_types: Seq::new(
                        types.len(),
                        |i: int| type_token_outcome(trim(types[i]))->Ok_0,
                    ),
                },
            )
        }),
{
    reveal_strlit("::");
    let chain = join(types, arrow());
    let raw = name + name_separator() + chain;
    let at = name.len() as int;
    assert(raw.subrange(at, at + 2) =~= name_separator());
    assert forall|j: int| 0 <= j < at implies !occurs_at(raw, name_separator(), j) by {
        if occurs_at(raw, name_separator(), j) {
            let found = raw.subrange(j, j + 2);
            assert(found[0] == ':' && found[1] == ':');
            if j + 2 <= at {
                assert(name.subrange(j, j + 2) =~= found);
                assert(occurs_at(name, name_separator(), j));
            } else {
                assert(raw[j] == name.last());
            }
        }
    }
    lemma_first_occurrence(raw, name_separator(), at);
    assert(raw.subrange(0, at) =~= name);
    assert(raw.subrange(at + 2, raw.len() as int) =~= chain);
    lemma_split_of_joined(types);
    lemma_notation_shape(raw);
    let outcomes = outcomes_of(trim_each(types));
    if forall|i: int| 0 <= i < types.len() ==> (#[trigger] outcomes[i]) is Ok {
        lemma_collect_all(outcomes);
        assert(Seq::new(outcomes.len(), |i: int| outcomes[i]->Ok_0) =~= Seq::new(
            types.len(),
            |i: int| type_token_outcome(trim(types[i]))->Ok_0,
        ));
    }
}

/// In a text that has the form of a signature, the first type that the
/// recogniser of types refuses decides: its message is the error, whatever
/// the name is and whatever follows that type.
pub proof fn lemma_first_refused_type_decides(raw: Seq<char>, at: int)
    requires
        notation(raw) matches Ok((_, tokens)) && 0 <= at < tokens.len() && type_token_outcome(
            tokens[at],
        ) is Err && forall|i: int|
            0 <= i < at ==> (#[trigger] type_token_outcome(tokens[i])) is Ok,
    ensures
        parsed(raw) == Err::<SignatureView, ErrorView>(
            ErrorView::HsType(type_token_outcome(notation(raw)->Ok_0.1[at])->Err_0),
        ),
{
    let tokens = notation(raw)->Ok_0.1;
    let outcomes = outcomes_of(tokens);
    assert(outcomes[at] == type_token_outcome(tokens[at]));
    assert forall|i: int| 0 <= i < at implies (#[trigger] outcomes[i]) is Ok by {
        assert(outcomes[i] == type_token_outcome(tokens[i]));
    }
    lemma_collect_first_failure(outcomes, at);
}

/// The recogniser of types cuts a text in ASCII between characters only.
pub proof fn lemma_ascii_is_readable(token: Seq<char>)
    requires
        is_ascii_chars(token),
    ensures
        readable(token),
    decreases token.len(),
{
    let cut = lemma_trim_is_a_cut(token);
    let t = trim(token);
    assert(is_ascii_chars(t));
    if t.len() > 0 {
        assert(narrow(t[0]));
        if t[0] == '(' {
            if t.len() >= 2 && t.last() == ')' {
                lemma_ascii_is_readable(t.subrange(1, t.len() - 1));
            }
        } else if t.len() >= 2 {
            assert(narrow(t[1]));
            if t[0] == 'I' && t[1] == 'O' {
                lemma_ascii_is_readable(t.subrange(2, t.len() as int));
            } else if t.len() >= 3 {
                assert(narrow(t[2]));
                if t[0] == 'P' && t[1] == 't' && t[2] == 'r' {
                    lemma_ascii_is_readable(t.subrange(3, t.len() as int));
                }
            }
        }
    }
}

/// The pieces of a text in ASCII are in ASCII.
pub proof fn lemma_split_keeps_ascii(s: Seq<char>, pat: Seq<char>)
    requires
        is_ascii_chars(s),
    ensures
        forall|k: int| 0 <= k < split(s, pat).len() ==> is_ascii_chars(#[trigger] split(s, pat)[k]),
    decreases s.len(),
{
    match first_occurrence(s, pat) {
        Some(i) if pat.len() > 0 && 0 <= i && i + pat.len() <= s.len() => {
            let head = s.subrange(0, i);
            let tail = s.subrange(i + pat.len(), s.len() as int);
            lemma_split_keeps_ascii(tail, pat);
            let pieces = split(s, pat);
            assert forall|k: int| 0 <= k < pieces.len() implies is_ascii_chars(
                #[trigger] pieces[k],
            ) by {
                if k > 0 {
                    assert(pieces[k] == split(tail, pat)[k - 1]);
                }
            }
        },
        _ => {},
    }
}

/// A text in ASCII can be read: the recogniser of types cuts each of its
/// types between characters only.
pub proof fn lemma_ascii_text_can_be_read(raw: Seq<char>)
    requires
        is_ascii_chars(raw),
    ensures
        can_be_read(raw),
{
    if let Ok((name, tokens)) = notation(raw) {
        lemma_some_occurrence_is_first(raw, name_separator());
        let at = first_occurrence(raw, name_separator())->Some_0;
        let chain = raw.subrange(at + name_separator().len(), raw.len() as int);
        let pieces = split(chain, arrow());
        lemma_split_keeps_ascii(chain, arrow());
        assert forall|k: int| 0 <= k < tokens.len() implies readable(#[trigger] tokens[k]) by {
            let cut = lemma_trim_is_a_cut(pieces[k]);
            assert(is_ascii_chars(pieces[k]));
            lemma_ascii_is_readable(tokens[k]);
        }
    }
}

/// The text of a module is a function of what the module's name and the
/// signatures hold: equal arguments give equal texts.
pub proof fn lemma_render_deterministic(
    module_a: Seq<char>,
    sigs_a: Seq<SignatureView>,
    module_b: Seq<char>,
    sigs_b: Seq<SignatureView>,
)
    requires
        module_a == module_b,
        sigs_a == sigs_b,
    ensures
        rendered(module_a, sigs_a) == rendered(module_b, sigs_b),
{
}

/// Rendering follows the order of the signatures: put in another order,
/// they give the exported names and the import lines in that same order.
pub proof fn lemma_render_follows_order(
    module: Seq<char>,
    sigs: Seq<SignatureView>,
    order: Seq<int>,
)
    requires
        forall|i: int| 0 <= i < order.len() ==> 0 <= #[trigger] order[i] < sigs.len(),
    ensures
        export_names(rearranged(sigs, order)) == rearranged(export_names(sigs), order),
        import_lines(rearranged(sigs, order)) == rearranged(import_lines(sigs), order),
        rendered(module, rearranged(sigs, order)) == PREAMBLE@ + module_header(
            module,
            rearranged(export_names(sigs), order),
        ) + IMPORTS@ + join(rearranged(import_lines(sigs), order), "\n"@),
{
    assert(export_names(rearranged(sigs, order)) =~= rearranged(export_names(sigs), order));
    assert(import_lines(rearranged(sigs, order)) =~= rearranged(import_lines(sigs), order));
}

/// Each part stands in what joins the parts.
pub proof fn lemma_join_holds_each_part(parts: Seq<Seq<char>>, sep: Seq<char>, i: int)
    requires
        0 <= i < parts.len(),
    ensures
        contains(join(parts, sep), parts[i]),
    decreases parts.len(),
{
    let whole = join(parts, sep);
    if parts.len() == 1 {
        assert(whole.subrange(0, parts[i].len() as int) =~= parts[i]);
        assert(occurs_at(whole, parts[i], 0));
    } else {
        let front = join(parts.drop_last(), sep);
        if i == parts.len() - 1 {
            let at = (front.len() + sep.len()) as int;
            assert(whole.subrange(at, at + parts[i].len()) =~= parts[i]);
            assert(occurs_at(whole, parts[i], at));
        } else {
            lemma_join_holds_each_part(parts.drop_last(), sep, i);
            assert(parts.drop_last()[i] == parts[i]);
            let at = choose|at: int| occurs_at(front, parts[i], at);
            assert(whole.subrange(at, at + parts[i].len()) =~= front.subrange(
                at,
                at + parts[i].len(),
            ));
            assert(occurs_at(whole, parts[i], at));
        }
    }
}

/// The text of a module holds, for each of its signatures, the line
/// `foreign import ccall unsafe "__c_NAME" NAME :: TYPES`, where `TYPES` are
/// the types of the signature with ` -> ` between them.
pub proof fn lemma_render_holds_each_import(module: Seq<char>, sigs: Seq<SignatureView>, i: int)
    requires
        0 <= i < sigs.len(),
    ensures
        import_line(sigs[i]) == "foreign import ccall unsafe \"__c_"@ + sigs[i].name + "\" "@
            + sigs[i].name + " :: "@ + join(sigs[i].ordered_types, " -> "@),
        contains(rendered(module, sigs), import_line(sigs[i])),
{
    let line = import_line(sigs[i]);
    assert(line =~= "foreign import ccall unsafe \"__c_"@ + sigs[i].name + "\" "@ + sigs[i].name
        + " :: "@ + join(sigs[i].ordered_types, " -> "@));
    let block = join(import_lines(sigs), "\n"@);
    let before = PREAMBLE@ + module_header(module, export_names(sigs)) + IMPORTS@;
    let whole = rendered(module, sigs);
    lemma_join_holds_each_part(import_lines(sigs), "\n"@, i);
    assert(import_lines(sigs)[i] == line);
    let at = choose|at: int| occurs_at(block, line, at);
    assert(whole.subrange(before.len() + at, before.len() + at + line.len()) =~= block.subrange(
        at,
        at + line.len(),
    ));
    assert(occurs_at(whole, line, before.len() + at));
}

} // verus!
