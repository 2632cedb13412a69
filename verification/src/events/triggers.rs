//! Whether an event asks for an analysis.
use crate::events::types::{AITrigger, ComparisonOperator, EventType, TriggerCondition};
use crate::math;
use crate::values::U256;
use vstd::prelude::*;

verus! {

/// A 256-bit number moved into the range of 128 signed bits.
pub open spec fn narrowed(v: U256) -> int {
    math::least(v.value(), i128::MAX as int)
}

/// Whether a trigger fires on an event with a value.
pub open spec fn fires(trigger: AITrigger, event_type: EventType, value: Option<i128>) -> bool {
    &&& trigger.event_types@.contains(event_type.number())
    &&& trigger.has_threshold && trigger.has_operator ==> value is Some && ComparisonOperator::of(
        trigger.operator,
    ).holds(value->0 as int, narrowed(trigger.threshold))
}

/// Holds triggers against events.
pub struct TriggerEvaluator;

impl TriggerEvaluator {
    /// Whether a trigger fires: on its event types and, where it has both a
    /// threshold and an operator, on values that stand in that relation.
    pub fn evaluate(trigger: &AITrigger, event_type: EventType, current_value: Option<i128>) -> (b:
        bool)
        ensures
            b == fires(*trigger, event_type, current_value),
    {
        let code = event_type.code();
        let mut listed = false;
        let mut i: usize = 0;
        while i < trigger.event_types.len()
            invariant
                i <= trigger.event_types@.len(),
                listed == (exists|j: int| 0 <= j < i && #[trigger] trigger.event_types@[j] == code),
            decreases trigger.event_types@.len() - i,
        {
            if trigger.event_types[i] == code {
                listed = true;
            }
            i += 1;
        }
        assert(listed == trigger.event_types@.contains(code));
        if !listed {
            return false;
        }
        if !trigger.has_threshold || !trigger.has_operator {
            return true;
        }
        let value = match current_value {
            Some(v) => v,
            None => {
                return false;
            },
        };
        let threshold: i128 = match trigger.threshold.to_u128() {
            Some(v) => {
                if v <= i128::MAX as u128 {
                    v as i128
                } else {
                    i128::MAX
                }
            },
            None => i128::MAX,
        };
        let condition = TriggerCondition {
            current_value: value,
            threshold,
            operator: ComparisonOperator::from(trigger.operator),
        };
        Self::evaluate_condition(&condition)
    }

    fn evaluate_condition(condition: &TriggerCondition) -> (b: bool)
        ensures
            b == condition.operator.holds(
                condition.current_value as int,
                condition.threshold as int,
            ),
    {
        match condition.operator {
            ComparisonOperator::GreaterThan => condition.current_value > condition.threshold,
            ComparisonOperator::LessThan => condition.current_value < condition.threshold,
            ComparisonOperator::EqualTo => condition.current_value == condition.threshold,
            ComparisonOperator::GreaterOrEqual => condition.current_value >= condition.threshold,
            ComparisonOperator::LessOrEqual => condition.current_value <= condition.threshold,
        }
    }
}

/// A trigger fires on no event but its own. On those it always fires where it
/// has no complete condition; where it has one it fires on values for which
/// the condition holds, and never without a value.
pub proof fn triggers_fire_on_their_events(
    trigger: AITrigger,
    event_type: EventType,
    value: Option<i128>,
)
    ensures
        ({
            let listed = trigger.event_types@.contains(event_type.number());
            let bound = trigger.threshold.value();
            let v = value->0;
            &&& !listed ==> !fires(trigger, event_type, value)
            &&& listed && !(trigger.has_threshold && trigger.has_operator) ==> fires(
                trigger,
                event_type,
                value,
            )
            &&& listed && trigger.has_threshold && trigger.has_operator ==> {
                &&& value is None ==> !fires(trigger, event_type, value)
                &&& value is Some && bound <= i128::MAX && trigger.operator == 0 ==> (fires(
                    trigger,
                    event_type,
                    value,
                ) <==> v > bound)
                &&& value is Some && bound <= i128::MAX && trigger.operator == 1 ==> (fires(
                    trigger,
                    event_type,
                    value,
                ) <==> v < bound)
                &&& value is Some && bound <= i128::MAX && trigger.operator == 2 ==> (fires(
                    trigger,
                    event_type,
                    value,
                ) <==> v == bound)
                &&& value is Some && bound <= i128::MAX && trigger.operator == 3 ==> (fires(
                    trigger,
                    event_type,
                    value,
                ) <==> v >= bound)
                &&& value is Some && bound <= i128::MAX && trigger.operator == 4 ==> (fires(
                    trigger,
                    event_type,
                    value,
                ) <==> v <= bound)
                &&& value is Some && bound > i128::MAX && trigger.operator == 0 ==> !fires(
                    trigger,
                    event_type,
                    value,
                )
            }
        }),
{
}

} // verus!
