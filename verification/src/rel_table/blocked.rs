//! What blocked a checkpoint, written into an error and read back.

use vstd::prelude::*;
use vstd::string::StringExecFns;

use crate::error::DevonError;
use crate::text;
use crate::text::{parse_number, push_decimal, rsplit, strip};

verus! {

/// The group whose replacement did not fit the memory budget.
#[derive(Debug, Clone, PartialEq, Eq)]
pub struct DetachCheckpointBlocked {
    /// The relationship table's name.
    pub relationship: String,
    /// `fwd` or `bwd`.
    pub direction: String,
    /// The replacement group's index.
    pub group: usize,
    /// The bytes asked for.
    pub requested: usize,
    /// The bytes charged when they were refused.
    pub charged: usize,
    /// The budget's limit.
    pub limit: usize,
}

/// What a blocked checkpoint says.
#[verifier::ext_equal]
pub struct BlockedView {
    pub relationship: Seq<char>,
    pub direction: Seq<char>,
    pub group: nat,
    pub requested: nat,
    pub charged: nat,
    pub limit: nat,
}

impl View for DetachCheckpointBlocked {
    type V = BlockedView;

    open spec fn view(&self) -> BlockedView {
        BlockedView {
            relationship: self.relationship@,
            direction: self.direction@,
            group: self.group as nat,
            requested: self.requested as nat,
            charged: self.charged as nat,
            limit: self.limit as nat,
        }
    }
}

/// The text of a blocked checkpoint.
pub open spec fn context_of(blocked: BlockedView) -> Seq<char> {
    "DETACH_CHECKPOINT_BLOCKED relationship="@ + (blocked.relationship + " direction="@
        + blocked.direction + " group="@ + text::decimal(blocked.group) + " requested="@
        + text::decimal(blocked.requested) + " charged="@ + text::decimal(blocked.charged)
        + " limit="@ + text::decimal(blocked.limit))
}

/// The blocked checkpoint that a text tells of.
pub open spec fn blocked_of(context: Seq<char>) -> Option<BlockedView> {
    match text::behind(context, "DETACH_CHECKPOINT_BLOCKED relationship="@) {
        None => None,
        Some(fields) => match text::split_last(fields, " limit="@) {
            None => None,
            Some((fields, limit)) => match text::split_last(fields, " charged="@) {
                None => None,
                Some((fields, charged)) => match text::split_last(fields, " requested="@) {
                    None => None,
                    Some((fields, requested)) => match text::split_last(fields, " group="@) {
                        None => None,
                        Some((fields, group)) => match text::split_last(fields, " direction="@) {
                            None => None,
                            Some((relationship, direction)) => numbers_of(
                                relationship,
                                direction,
                                group,
                                requested,
                                charged,
                                limit,
                            ),
                        },
                    },
                },
            },
        },
    }
}

/// The blocked checkpoint of six texts, where the last four are numbers.
pub open spec fn numbers_of(
    relationship: Seq<char>,
    direction: Seq<char>,
    group: Seq<char>,
    requested: Seq<char>,
    charged: Seq<char>,
    limit: Seq<char>,
) -> Option<BlockedView> {
    let most = usize::MAX as nat;
    match (
        text::numeral(group, most),
        text::numeral(requested, most),
        text::numeral(charged, most),
        text::numeral(limit, most),
    ) {
        (Some(group), Some(requested), Some(charged), Some(limit)) => Some(
            BlockedView { relationship, direction, group, requested, charged, limit },
        ),
        _ => None,
    }
}

/// The numbers of a text do not hold a pattern that begins with a blank.
proof fn lemma_number_holds_none(number: nat, pattern: Seq<char>)
    requires
        pattern.len() > 0,
        pattern[0] == ' ',
    ensures
        forall|i: int|
            0 <= i < text::decimal(number).len() ==> !#[trigger] text::occurs_at(
                text::decimal(number),
                pattern,
                i,
            ),
{
    text::lemma_decimal_value(number);
    let digits = text::decimal(number);
    assert forall|i: int| 0 <= i < digits.len() implies !#[trigger] text::occurs_at(
        digits,
        pattern,
        i,
    ) by {
        assert(text::is_digit(digits[i]));
        if text::occurs_at(digits, pattern, i) {
            assert(digits.subrange(i, i + pattern.len())[0] == pattern[0]);
        }
    }
}

/// The text of a blocked checkpoint is read back, unless the direction
/// itself holds the words that begin it.
pub proof fn law_context_round_trip(blocked: BlockedView)
    requires
        blocked.group <= usize::MAX,
        blocked.requested <= usize::MAX,
        blocked.charged <= usize::MAX,
        blocked.limit <= usize::MAX,
        forall|i: int|
            0 <= i < blocked.direction.len() ==> !#[trigger] text::occurs_at(
                blocked.direction,
                " direction="@,
                i,
            ),
    ensures
        blocked_of(context_of(blocked)) == Some(blocked),
{
    reveal_strlit(" direction=");
    reveal_strlit(" group=");
    reveal_strlit(" requested=");
    reveal_strlit(" charged=");
    reveal_strlit(" limit=");
    let prefix = "DETACH_CHECKPOINT_BLOCKED relationship="@;
    let most = usize::MAX as nat;
    let named = blocked.relationship + " direction="@ + blocked.direction;
    let grouped = named + " group="@ + text::decimal(blocked.group);
    let asked = grouped + " requested="@ + text::decimal(blocked.requested);
    let held = asked + " charged="@ + text::decimal(blocked.charged);
    let fields = held + " limit="@ + text::decimal(blocked.limit);
    let context = context_of(blocked);
    assert(context =~= prefix + fields);
    assert(context.subrange(0, prefix.len() as int) =~= prefix);
    assert(context.subrange(prefix.len() as int, context.len() as int) =~= fields);
    lemma_number_holds_none(blocked.limit, " limit="@);
    text::lemma_split_last(held, " limit="@, text::decimal(blocked.limit));
    lemma_number_holds_none(blocked.charged, " charged="@);
    text::lemma_split_last(asked, " charged="@, text::decimal(blocked.charged));
    lemma_number_holds_none(blocked.requested, " requested="@);
    text::lemma_split_last(grouped, " requested="@, text::decimal(blocked.requested));
    lemma_number_holds_none(blocked.group, " group="@);
    text::lemma_split_last(named, " group="@, text::decimal(blocked.group));
    text::lemma_split_last(blocked.relationship, " direction="@, blocked.direction);
    text::lemma_numeral(blocked.group, most);
    text::lemma_numeral(blocked.requested, most);
    text::lemma_numeral(blocked.charged, most);
    text::lemma_numeral(blocked.limit, most);
}

impl DetachCheckpointBlocked {
    /// The text that an error carries.
    pub fn context(&self) -> (context: String)
        ensures
            context@ == context_of(self@),
    {
        let mut context: String = "DETACH_CHECKPOINT_BLOCKED relationship=".to_owned();
        context.append(self.relationship.as_str());
        context.append(" direction=");
        context.append(self.direction.as_str());
        context.append(" group=");
        push_decimal(&mut context, self.group as u64);
        context.append(" requested=");
        push_decimal(&mut context, self.requested as u64);
        context.append(" charged=");
        push_decimal(&mut context, self.charged as u64);
        context.append(" limit=");
        push_decimal(&mut context, self.limit as u64);
        assert(context@ =~= context_of(self@));
        context
    }

    /// The blocked checkpoint that an error tells of.
    pub fn from_error(error: &DevonError) -> (blocked: Option<DetachCheckpointBlocked>)
        ensures
            match *error {
                DevonError::BudgetExceeded { context } => match blocked {
                    Some(found) => blocked_of(context@) == Some(found@),
                    None => blocked_of(context@) is None,
                },
                _ => blocked is None,
            },
    {
        match error {
            DevonError::BudgetExceeded { context } => read_context(context.as_str()),
            _ => None,
        }
    }
}

fn size(text: &str) -> (number: Option<usize>)
    ensures
        match number {
            Some(found) => text::numeral(text@, usize::MAX as nat) == Some(found as nat),
            None => text::numeral(text@, usize::MAX as nat) is None,
        },
{
    match parse_number(text, usize::MAX as u64) {
        Some(found) => Some(found as usize),
        None => None,
    }
}

fn read_context(context: &str) -> (blocked: Option<DetachCheckpointBlocked>)
    ensures
        match blocked {
            Some(found) => blocked_of(context@) == Some(found@),
            None => blocked_of(context@) is None,
        },
{
    proof {
        reveal_strlit("DETACH_CHECKPOINT_BLOCKED relationship=");
    }
    let fields: &str = match strip(context, "DETACH_CHECKPOINT_BLOCKED relationship=") {
        Some(fields) => fields,
        None => {
            return None;
        },
    };
    let (fields, limit): (&str, &str) = match rsplit(fields, " limit=") {
        Some(parts) => parts,
        None => {
            return None;
        },
    };
    let (fields, charged): (&str, &str) = match rsplit(fields, " charged=") {
        Some(parts) => parts,
        None => {
            return None;
        },
    };
    let (fields, requested): (&str, &str) = match rsplit(fields, " requested=") {
        Some(parts) => parts,
        None => {
            return None;
        },
    };
    let (fields, group): (&str, &str) = match rsplit(fields, " group=") {
        Some(parts) => parts,
        None => {
            return None;
        },
    };
    let (relationship, direction): (&str, &str) = match rsplit(fields, " direction=") {
        Some(parts) => parts,
        None => {
            return None;
        },
    };
    match (size(group), size(requested), size(charged), size(limit)) {
        (Some(group), Some(requested), Some(charged), Some(limit)) => {
            let found = DetachCheckpointBlocked {
                relationship: relationship.to_owned(),
                direction: direction.to_owned(),
                group,
                requested,
                charged,
                limit,
            };
            Some(found)
        },
        _ => None,
    }
}

} // verus!
