//! Signatures: `name :: type -> type -> ... -> type`.

use crate::descriptor::{
    outcome_view, outcome_views, readable, recognize_token, type_texts, type_token_outcome,
    TypeDescriptor,
};
use crate::error::{Error, ErrorView};
use crate::text::{
    contains, find, first_occurrence, join, join_with, lemma_some_occurrence_is_first,
    lemma_trim_is_a_cut, lemma_trim_leaves_no_whitespace, lemma_trim_of_same_length, occurs_at,
    split, split_on, texts, to_chars, trim, trimmed,
};
use vstd::prelude::*;

verus! {

/// The name under which Haskell sees a function, and its types in the order
/// in which they were written: the arguments first, the result last.
#[derive(Debug, Clone, PartialEq, Eq)]
pub struct Signature {
    pub name: String,
    pub ordered_types: Vec<TypeDescriptor>,
}

/// A [`Signature`] over sequences of characters.
pub struct SignatureView {
    pub name: Seq<char>,
    pub ordered_types: Seq<Seq<char>>,
}

impl View for Signature {
    type V = SignatureView;

    open spec fn view(&self) -> SignatureView {
        SignatureView { name: self.name@, ordered_types: type_texts(self.ordered_types@) }
    }
}

/// What stands between the name and the types.
pub open spec fn name_separator() -> Seq<char> {
    "::"@
}

/// What stands between two types.
pub open spec fn arrow() -> Seq<char> {
    "->"@
}

/// What a name must be: not empty, without whitespace at its ends, and
/// without `::` and `->`.
pub open spec fn valid_name(name: Seq<char>) -> bool {
    &&& name.len() > 0
    &&& trim(name) == name
    &&& !contains(name, name_separator())
    &&& !contains(name, arrow())
}

/// What a signature must hold: a valid name, and at least one type.
pub open spec fn well_formed(sig: SignatureView) -> bool {
    valid_name(sig.name) && sig.ordered_types.len() > 0
}

/// A signature as it is written: the name, ` :: `, and the types with ` -> `
/// between them.
pub open spec fn signature_text(sig: SignatureView) -> Seq<char> {
    sig.name + " :: "@ + join(sig.ordered_types, " -> "@)
}

/// Each piece of `pieces`, trimmed.
pub open spec fn trim_each(pieces: Seq<Seq<char>>) -> Seq<Seq<char>> {
    Seq::new(pieces.len(), |i: int| trim(pieces[i]))
}

/// The name and the texts of the types that `raw` holds, each trimmed.
///
/// `raw` is cut at its first `::`. Without one there is no signature. What
/// stands before it is the name. What follows it may hold no further `::` and
/// something besides whitespace: it is cut at each `->`.
pub open spec fn notation(raw: Seq<char>) -> Result<(Seq<char>, Seq<Seq<char>>), ErrorView> {
    match first_occurrence(raw, name_separator()) {
        None => Err(ErrorView::MissingSig),
        Some(i) => {
            let chain = raw.subrange(i + name_separator().len(), raw.len() as int);
            if contains(chain, name_separator()) || trim(chain).len() == 0 {
                Err(ErrorView::MalformedSig(raw))
            } else {
                Ok((trim(raw.subrange(0, i)), trim_each(split(chain, arrow()))))
            }
        },
    }
}

/// The types of `outcomes` in their order, or the message of the first
/// outcome that is a failure.
pub open spec fn collect(outcomes: Seq<Result<Seq<char>, Seq<char>>>) -> Result<
    Seq<Seq<char>>,
    Seq<char>,
>
    decreases outcomes.len(),
{
    if outcomes.len() == 0 {
        Ok(Seq::empty())
    } else {
        match outcomes.first() {
            Err(message) => Err(message),
            Ok(ty) => match collect(outcomes.drop_first()) {
                Err(message) => Err(message),
                Ok(rest) => Ok(seq![ty] + rest),
            },
        }
    }
}

/// The signature of `name` with the types of `outcomes`. The first failure
/// among the outcomes is the error. Without one, the name has to be valid and
/// a type has to be there: else `raw`, the text that was read, is malformed.
pub open spec fn assembled(
    raw: Seq<char>,
    name: Seq<char>,
    outcomes: Seq<Result<Seq<char>, Seq<char>>>,
) -> Result<SignatureView, ErrorView> {
    match collect(outcomes) {
        Err(message) => Err(ErrorView::HsType(message)),
        Ok(types) => if valid_name(name) && types.len() > 0 {
            Ok(SignatureView { name, ordered_types: types })
        } else {
            Err(ErrorView::MalformedSig(raw))
        },
    }
}

/// What the recogniser makes of each of `tokens`.
pub open spec fn outcomes_of(tokens: Seq<Seq<char>>) -> Seq<Result<Seq<char>, Seq<char>>> {
    Seq::new(tokens.len(), |i: int| type_token_outcome(tokens[i]))
}

/// The signature that `raw` holds, or why it holds none: first by where its
/// `::` stand, then by its types, then by its name.
pub open spec fn parsed(raw: Seq<char>) -> Result<SignatureView, ErrorView> {
    match notation(raw) {
        Err(error) => Err(error),
        Ok((name, tokens)) => assembled(raw, name, outcomes_of(tokens)),
    }
}

/// The recogniser of types can take each of `tokens` that is handed to it:
/// it cuts between characters only in each one up to the first that it
/// refuses. Those behind that one are not handed to it.
pub open spec fn handed_readable(tokens: Seq<Seq<char>>) -> bool {
    forall|i: int|
        0 <= i < tokens.len() && (forall|j: int|
            0 <= j < i ==> (#[trigger] type_token_outcome(tokens[j])) is Ok) ==> readable(
            #[trigger] tokens[i],
        )
}

/// `raw` can be read: where it has the form of a signature, the recogniser
/// of types can take each type that is handed to it.
pub open spec fn can_be_read(raw: Seq<char>) -> bool {
    match notation(raw) {
        Err(_) => true,
        Ok((_, tokens)) => handed_readable(tokens),
    }
}

/// A result of parsing over sequences of characters.
pub open spec fn result_view(res: Result<Signature, Error>) -> Result<SignatureView, ErrorView> {
    match res {
        Ok(sig) => Ok(sig@),
        Err(error) => Err(error@),
    }
}

/// Where no outcome is a failure, the types are those of the outcomes.
pub proof fn lemma_collect_all(outcomes: Seq<Result<Seq<char>, Seq<char>>>)
    requires
        forall|i: int| 0 <= i < outcomes.len() ==> (#[trigger] outcomes[i]) is Ok,
    ensures
        collect(outcomes) == Ok::<Seq<Seq<char>>, Seq<char>>(
            Seq::new(outcomes.len(), |i: int| outcomes[i]->Ok_0),
        ),
    decreases outcomes.len(),
{
    if outcomes.len() > 0 {
        let rest = outcomes.drop_first();
        assert forall|i: int| 0 <= i < rest.len() implies (#[trigger] rest[i]) is Ok by {
            assert(rest[i] == outcomes[i + 1]);
        }
        lemma_collect_all(rest);
        assert(outcomes.first() is Ok);
        assert(seq![outcomes.first()->Ok_0] + Seq::new(rest.len(), |i: int| rest[i]->Ok_0)
            =~= Seq::new(outcomes.len(), |i: int| outcomes[i]->Ok_0));
    } else {
        assert(Seq::new(outcomes.len(), |i: int| outcomes[i]->Ok_0) =~= Seq::<
            Seq<char>,
        >::empty());
    }
}

/// The first failure among the outcomes decides.
pub proof fn lemma_collect_first_failure(outcomes: Seq<Result<Seq<char>, Seq<char>>>, at: int)
    requires
        0 <= at < outcomes.len(),
        outcomes[at] is Err,
        forall|i: int| 0 <= i < at ==> (#[trigger] outcomes[i]) is Ok,
    ensures
        collect(outcomes) == Err::<Seq<Seq<char>>, Seq<char>>(outcomes[at]->Err_0),
    decreases at,
{
    if at > 0 {
        let rest = outcomes.drop_first();
        assert(outcomes.first() is Ok);
        assert forall|i: int| 0 <= i < at - 1 implies (#[trigger] rest[i]) is Ok by {
            assert(rest[i] == outcomes[i + 1]);
        }
        assert(rest[at - 1] == outcomes[at]);
        lemma_collect_first_failure(rest, at - 1);
    }
}

/// Where no outcome is a failure, there are as many types as outcomes.
pub proof fn lemma_collect_keeps_count(outcomes: Seq<Result<Seq<char>, Seq<char>>>)
    ensures
        collect(outcomes) matches Ok(types) ==> types.len() == outcomes.len(),
    decreases outcomes.len(),
{
    if outcomes.len() > 0 {
        lemma_collect_keeps_count(outcomes.drop_first());
    }
}

/// The first failure decides alone: what stands behind it changes nothing.
pub proof fn lemma_collect_stops_at_failure(
    outcomes: Seq<Result<Seq<char>, Seq<char>>>,
    at: int,
)
    requires
        0 <= at < outcomes.len(),
        outcomes[at] is Err,
        forall|i: int| 0 <= i < at ==> (#[trigger] outcomes[i]) is Ok,
    ensures
        collect(outcomes.take(at + 1)) == collect(outcomes),
{
    let front = outcomes.take(at + 1);
    assert(front[at] == outcomes[at]);
    assert forall|i: int| 0 <= i < at implies (#[trigger] front[i]) is Ok by {
        assert(front[i] == outcomes[i]);
    }
    lemma_collect_first_failure(front, at);
    lemma_collect_first_failure(outcomes, at);
}

/// Where a text has the form of a signature, it has a type, and its name is
/// trimmed and holds no `::`: the name is valid where it is not empty and
/// holds no `->`.
pub proof fn lemma_notation_shape(raw: Seq<char>)
    ensures
        notation(raw) matches Ok((name, tokens)) ==> {
            &&& tokens.len() > 0
            &&& trim(name) == name
            &&& !contains(name, name_separator())
            &&& valid_name(name) <==> name.len() > 0 && !contains(name, arrow())
        },
{
    reveal_strlit("::");
    if let Ok((name, tokens)) = notation(raw) {
        lemma_some_occurrence_is_first(raw, name_separator());
        let at = first_occurrence(raw, name_separator())->Some_0;
        let front = raw.subrange(0, at);
        let chain = raw.subrange(at + name_separator().len(), raw.len() as int);
        assert(split(chain, arrow()).len() > 0);
        lemma_trim_leaves_no_whitespace(front);
        let cut = lemma_trim_is_a_cut(front);
        if contains(name, name_separator()) {
            let j = choose|j: int| occurs_at(name, name_separator(), j);
            assert(raw.subrange(cut.0 + j, cut.0 + j + 2) =~= name.subrange(j, j + 2));
            assert(occurs_at(raw, name_separator(), cut.0 + j));
        }
    }
}

/// A signature that was read is well formed.
pub proof fn lemma_read_signature_shape(raw: Seq<char>)
    ensures
        parsed(raw) matches Ok(sig) ==> well_formed(sig),
{
}

/// Whether `name` is a valid name.
pub fn is_valid_name(name: &str) -> (b: bool)
    ensures
        b == valid_name(name@),
{
    let chars: Vec<char> = to_chars(name);
    let separator: Vec<char> = to_chars("::");
    let arrow_chars: Vec<char> = to_chars("->");
    proof {
        lemma_trim_of_same_length(name@);
    }
    chars.len() > 0 && trimmed(name).unicode_len() == chars.len() && find(
        &chars,
        &separator,
    ).is_none() && find(&chars, &arrow_chars).is_none()
}

/// The name and the texts of the types that `raw` holds, each trimmed.
pub fn split_signature(raw: &str) -> (res: Result<(String, Vec<String>), Error>)
    ensures
        match res {
            Ok((name, tokens)) => notation(raw@) == Ok::<(Seq<char>, Seq<Seq<char>>), ErrorView>(
                (name@, texts(tokens@)),
            ),
            Err(error) => notation(raw@) == Err::<(Seq<char>, Seq<Seq<char>>), ErrorView>(error@),
        },
{
    let chars: Vec<char> = to_chars(raw);
    let separator: Vec<char> = to_chars("::");
    match find(&chars, &separator) {
        None => Err(Error::MissingSig),
        Some(i) => {
            let n: usize = chars.len();
            let m: usize = separator.len();
            assert(occurs_at(chars@, separator@, i as int));
            let chain: &str = raw.substring_char(i + m, n);
            let chain_chars: Vec<char> = to_chars(chain);
            if find(&chain_chars, &separator).is_some() || trimmed(chain).unicode_len() == 0 {
                return Err(Error::MalformedSig(raw.to_owned()));
            }
            let name: &str = trimmed(raw.substring_char(0, i));
            proof {
                reveal_strlit("->");
            }
            let pieces: Vec<String> = split_on(chain, "->");
            let mut tokens: Vec<String> = Vec::new();
            let mut k: usize = 0;
            while k < pieces.len()
                invariant
                    k <= pieces.len(),
                    tokens@.len() == k,
                    forall|j: int| 0 <= j < k ==> (#[trigger] tokens@[j])@ == trim(pieces@[j]@),
                decreases pieces.len() - k,
            {
                tokens.push(trimmed(pieces[k].as_str()).to_owned());
                k += 1;
            }
            assert(texts(tokens@) =~= trim_each(texts(pieces@)));
            Ok((name.to_owned(), tokens))
        },
    }
}

impl Signature {
    /// The signature of `name` with the types of `outcomes`, where the
    /// recogniser of types accepted each of them; else the error of the first
    /// that it refused. Where it refused none, but `name` is no valid name or
    /// no type is there, `raw`, the text that was read, is malformed.
    pub fn assemble(raw: &str, name: String, outcomes: Vec<Result<TypeDescriptor, String>>) -> (res:
        Result<Signature, Error>)
        ensures
            result_view(res) == assembled(raw@, name@, outcome_views(outcomes@)),
            res matches Ok(sig) ==> well_formed(sig@),
    {
        let ghost views = outcome_views(outcomes@);
        let mut types: Vec<TypeDescriptor> = Vec::new();
        let mut i: usize = 0;
        while i < outcomes.len()
            invariant
                i <= outcomes.len(),
                views == outcome_views(outcomes@),
                types@.len() == i,
                forall|j: int| 0 <= j < i ==> (#[trigger] views[j]) == Ok::<Seq<char>, Seq<char>>(
                    types@[j]@,
                ),
            decreases outcomes.len() - i,
        {
            match &outcomes[i] {
                Ok(descriptor) => {
                    types.push(TypeDescriptor { text: descriptor.text.clone() });
                },
                Err(message) => {
                    proof {
                        lemma_collect_first_failure(views, i as int);
                    }
                    return Err(Error::HsType(message.clone()));
                },
            }
            i += 1;
        }
        proof {
            lemma_collect_all(views);
            assert(type_texts(types@) =~= Seq::new(views.len(), |j: int| views[j]->Ok_0));
        }
        if types.len() == 0 || !is_valid_name(name.as_str()) {
            return Err(Error::MalformedSig(raw.to_owned()));
        }
        Ok(Signature { name, ordered_types: types })
    }

    /// Reads the signature that `raw` holds.
    ///
    /// Each type is handed to the recogniser of types, from the left, up to
    /// the first that it refuses. It fails where it has to cut a type inside
    /// a character: such a type is not handed to it, nothing is read, and the
    /// result is `None`.
    pub fn parse(raw: &str) -> (res: Option<Result<Signature, Error>>)
        ensures
            can_be_read(raw@) <==> res is Some,
            res matches Some(read) ==> result_view(read) == parsed(raw@),
            res matches Some(Ok(sig)) ==> well_formed(sig@),
    {
        match split_signature(raw) {
            Err(error) => Some(Err(error)),
            Ok((name, tokens)) => {
                let ghost all = outcomes_of(texts(tokens@));
                let mut outcomes: Vec<Result<TypeDescriptor, String>> = Vec::new();
                let mut refused: bool = false;
                let mut i: usize = 0;
                while i < tokens.len() && !refused
                    invariant
                        i <= tokens.len(),
                        outcomes@.len() == i,
                        all == outcomes_of(texts(tokens@)),
                        notation(raw@) == Ok::<(Seq<char>, Seq<Seq<char>>), ErrorView>(
                            (name@, texts(tokens@)),
                        ),
                        forall|j: int| 0 <= j < i ==> readable(#[trigger] texts(tokens@)[j]),
                        forall|j: int|
                            0 <= j < i ==> outcome_view(#[trigger] outcomes@[j]) == all[j],
                        forall|j: int| 0 <= j < i - 1 ==> (#[trigger] all[j]) is Ok,
                        refused ==> i > 0 && all[i - 1] is Err,
                        !refused && i > 0 ==> all[i - 1] is Ok,
                    decreases tokens.len() - i,
                {
                    assert(texts(tokens@)[i as int] == tokens@[i as int]@);
                    match recognize_token(tokens[i].as_str()) {
                        None => {
                            proof {
                                assert forall|j: int| 0 <= j < i implies (
                                #[trigger] type_token_outcome(texts(tokens@)[j])) is Ok by {
                                    assert(all[j] is Ok);
                                }
                                assert(!readable(texts(tokens@)[i as int]));
                            }
                            return None;
                        },
                        Some(outcome) => {
                            refused = outcome.is_err();
                            outcomes.push(outcome);
                        },
                    }
                    i += 1;
                }
                proof {
                    let ghost handed = outcome_views(outcomes@);
                    if refused {
                        assert(handed =~= all.take(i as int));
                        lemma_collect_stops_at_failure(all, i - 1);
                        assert forall|k: int|
                            0 <= k < tokens@.len() && (forall|j: int|
                                0 <= j < k ==> (#[trigger] type_token_outcome(
                                    texts(tokens@)[j],
                                )) is Ok) implies readable(#[trigger] texts(tokens@)[k]) by {
                            if k >= i {
                                assert(type_token_outcome(texts(tokens@)[i - 1]) == all[i - 1]);
                            }
                        }
                    } else {
                        assert(handed =~= all);
                    }
                }
                Some(Signature::assemble(raw, name, outcomes))
            },
        }
    }

    /// The signature as it is written: the name, ` :: `, and the types with
    /// ` -> ` between them.
    pub fn to_text(&self) -> (out: String)
        ensures
            out@ == signature_text(self@),
    {
        let mut names: Vec<String> = Vec::new();
        let mut i: usize = 0;
        while i < self.ordered_types.len()
            invariant
                i <= self.ordered_types.len(),
                names@.len() == i,
                forall|j: int| 0 <= j < i ==> (#[trigger] names@[j])@ == self.ordered_types@[j]@,
            decreases self.ordered_types.len() - i,
        {
            names.push(self.ordered_types[i].text.clone());
            i += 1;
        }
        assert(texts(names@) =~= type_texts(self.ordered_types@));
        let chain: String = join_with(&names, " -> ");
        let mut out: String = self.name.clone();
        out.append(" :: ");
        out.append(chain.as_str());
        out
    }
}

} // verus!
