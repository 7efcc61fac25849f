//! The conversion's error taxonomy, and the rendering of an error into
//! its human-readable message.
//!
//! An error is a base failure plus the keys of the enclosing object
//! fields it propagated through, outermost first: each enclosing object
//! wraps a failing pair's error with that pair's key.

use vstd::prelude::*;
use vstd::string::StringExecFns;

verus! {

/// Mathematical shape of a `BaseError`.
pub enum SpecBaseError {
    /// The grammar collaborator rejected the input; carries its
    /// diagnostic text.
    Syntax(Seq<char>),
    /// A pair node without an identifier token.
    PairIdMissing,
    /// A pair node without a value node.
    PairValueMissing,
    /// A pair whose identifier text is empty.
    EmptyKey,
    /// A numeric token that does not denote a 64-bit float; carries the
    /// offending text.
    NumberParse(Seq<char>),
    /// A value node whose shape the value model does not recognize;
    /// carries the node's raw text.
    UnhandledValue(Seq<char>),
}

/// Mathematical shape of a `ConversionError`.
pub struct SpecError {
    pub context: Seq<Seq<char>>,
    pub base: SpecBaseError,
}

/// A base failure of the conversion.
#[derive(Debug, PartialEq, Eq)]
pub enum BaseError {
    Syntax(String),
    PairIdMissing,
    PairValueMissing,
    EmptyKey,
    NumberParse(String),
    UnhandledValue(String),
}

/// A failure of the conversion: the base failure, and the keys whose
/// values it arose under, outermost first.
#[derive(Debug, PartialEq, Eq)]
pub struct ConversionError {
    pub context: Vec<String>,
    pub base: BaseError,
}

impl View for BaseError {
    type V = SpecBaseError;

    open spec fn view(&self) -> SpecBaseError {
        match self {
            BaseError::Syntax(m) => SpecBaseError::Syntax(m@),
            BaseError::PairIdMissing => SpecBaseError::PairIdMissing,
            BaseError::PairValueMissing => SpecBaseError::PairValueMissing,
            BaseError::EmptyKey => SpecBaseError::EmptyKey,
            BaseError::NumberParse(t) => SpecBaseError::NumberParse(t@),
            BaseError::UnhandledValue(t) => SpecBaseError::UnhandledValue(t@),
        }
    }
}

pub open spec fn context_view(ctx: Seq<String>) -> Seq<Seq<char>>
    decreases ctx,
{
    if ctx.len() == 0 {
        Seq::empty()
    } else {
        context_view(ctx.drop_last()).push(ctx.last()@)
    }
}

impl View for ConversionError {
    type V = SpecError;

    open spec fn view(&self) -> SpecError {
        SpecError { context: context_view(self.context@), base: self.base@ }
    }
}

impl ConversionError {
    /// An error with no enclosing-key context.
    pub open spec fn spec_new(b: SpecBaseError) -> SpecError {
        SpecError { context: Seq::empty(), base: b }
    }

    pub fn new(base: BaseError) -> (e: Self)
        ensures
            e@ == Self::spec_new(base@),
    {
        ConversionError { context: Vec::new(), base }
    }

    /// `e` wrapped with the key of the pair whose value failed.
    pub open spec fn spec_wrap(key: Seq<char>, e: SpecError) -> SpecError {
        SpecError { context: e.context.insert(0, key), base: e.base }
    }

    pub fn wrap(self, key: &String) -> (e: Self)
        ensures
            e@ == Self::spec_wrap(key@, self@),
    {
        let ghost old_ctx = self.context@;
        let mut ctx = self.context;
        let k2 = key.clone();
        let ghost k2s = k2;
        ctx.insert(0, k2);
        proof {
            lemma_context_view_index(old_ctx);
            lemma_context_view_index(ctx@);
            let inserted = context_view(old_ctx).insert(0, key@);
            context_view(old_ctx).insert_ensures(0, key@);
            old_ctx.insert_ensures(0, k2s);
            assert(ctx@ == old_ctx.insert(0, k2s));
            assert forall|i: int| 0 <= i < ctx@.len() implies context_view(ctx@)[i]
                == inserted[i] by {
                if i == 0 {
                    assert(ctx@[0] == k2s);
                    assert(inserted[0] == key@);
                    assert(context_view(ctx@)[0] == ctx@[0]@);
                } else {
                    let j = i - 1;
                    assert(ctx@[j + 1] == old_ctx[j]);
                    assert(inserted[j + 1] == context_view(old_ctx)[j]);
                    assert(context_view(ctx@)[i] == ctx@[i]@);
                    assert(context_view(old_ctx)[j] == old_ctx[j]@);
                }
            }
            assert(context_view(ctx@) =~= inserted);
        }
        ConversionError { context: ctx, base: self.base }
    }
}

pub proof fn lemma_context_view_index(ctx: Seq<String>)
    ensures
        context_view(ctx).len() == ctx.len(),
        forall|i: int| 0 <= i < ctx.len() ==> context_view(ctx)[i] == #[trigger] ctx[i]@,
    decreases ctx,
{
    if ctx.len() > 0 {
        lemma_context_view_index(ctx.drop_last());
        let prev = context_view(ctx.drop_last());
        assert(ctx.drop_last().len() == ctx.len() - 1);
        assert(context_view(ctx) == prev.push(ctx.last()@));
        assert forall|i: int| 0 <= i < ctx.len() implies context_view(ctx)[i] == #[trigger] ctx[i]@ by {
            assert(context_view(ctx)[i] == prev.push(ctx.last()@)[i]);
            if i < ctx.len() - 1 {
                assert(prev.push(ctx.last()@)[i] == prev[i]);
                assert(ctx.drop_last()[i] == ctx[i]);
            } else {
                assert(prev.push(ctx.last()@)[i] == ctx.last()@);
                assert(ctx.last() == ctx[i]);
            }
        }
    }
}

/// The message of a base failure.
pub open spec fn spec_base_message(b: SpecBaseError) -> Seq<char> {
    match b {
        SpecBaseError::Syntax(m) => m,
        SpecBaseError::PairIdMissing => "Invalid pair in object: ID missing"@,
        SpecBaseError::PairValueMissing => "Invalid pair in object: Value missing"@,
        SpecBaseError::EmptyKey => "Object key is empty"@,
        SpecBaseError::NumberParse(t) => "Failed to parse number: "@ + t,
        SpecBaseError::UnhandledValue(t) => "Unhandled value type: "@ + t,
    }
}

/// The message of an error: one enclosing-key header per context entry,
/// outermost first, then the base failure's message.
pub open spec fn spec_message_from(ctx: Seq<Seq<char>>, b: SpecBaseError) -> Seq<char>
    decreases ctx,
{
    if ctx.len() == 0 {
        spec_base_message(b)
    } else {
        "Error parsing value for key '"@ + ctx[0] + "': "@ + spec_message_from(ctx.drop_first(), b)
    }
}

pub open spec fn spec_message(e: SpecError) -> Seq<char> {
    spec_message_from(e.context, e.base)
}

impl BaseError {
    fn message(&self) -> (r: String)
        ensures
            r@ == spec_base_message(self@),
    {
        match self {
            BaseError::Syntax(m) => m.clone(),
            BaseError::PairIdMissing => "Invalid pair in object: ID missing".to_owned(),
            BaseError::PairValueMissing => "Invalid pair in object: Value missing".to_owned(),
            BaseError::EmptyKey => "Object key is empty".to_owned(),
            BaseError::NumberParse(t) => {
                let mut s = "Failed to parse number: ".to_owned();
                s.append(t.as_str());
                s
            },
            BaseError::UnhandledValue(t) => {
                let mut s = "Unhandled value type: ".to_owned();
                s.append(t.as_str());
                s
            },
        }
    }
}

impl ConversionError {
    /// The human-readable message the caller receives for this error.
    pub fn message(&self) -> (r: String)
        ensures
            r@ == spec_message(self@),
    {
        let mut s = String::new();
        let n = self.context.len();
        proof {
            lemma_context_view_index(self.context@);
            assert(context_view(self.context@).skip(0) =~= context_view(self.context@));
            assert(s@ + spec_message_from(context_view(self.context@), self.base@)
                =~= spec_message_from(context_view(self.context@), self.base@));
        }
        for i in 0..n
            invariant
                n == self.context@.len(),
                context_view(self.context@).len() == n,
                forall|j: int|
                    0 <= j < n ==> context_view(self.context@)[j] == #[trigger] self.context@[j]@,
                spec_message(self@) == s@ + spec_message_from(
                    context_view(self.context@).skip(i as int),
                    self.base@,
                ),
        {
            let ghost rest = context_view(self.context@).skip(i as int);
            s.append("Error parsing value for key '");
            s.append(self.context[i].as_str());
            s.append("': ");
            proof {
                assert(rest[0] == self.context@[i as int]@);
                assert(rest.drop_first() =~= context_view(self.context@).skip(i + 1));
                assert(spec_message_from(rest, self.base@) == "Error parsing value for key '"@
                    + rest[0] + "': "@ + spec_message_from(rest.drop_first(), self.base@));
            }
        }
        let tail = self.base.message();
        s.append(tail.as_str());
        proof {
            assert(context_view(self.context@).skip(n as int) =~= Seq::<Seq<char>>::empty());
        }
        s
    }
}

} // verus!
