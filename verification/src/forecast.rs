//! What a model costs.
use crate::policy::ModelId;
use vstd::prelude::*;

verus! {

/// Whole US dollars per million tokens, in and out.
pub open spec fn rates(model: ModelId) -> (u32, u32) {
    match model {
        ModelId::Haiku45 => (1, 5),
        ModelId::Sonnet5 => (3, 15),
        ModelId::Opus5 => (5, 25),
        ModelId::Fable5 => (10, 50),
    }
}

/// Whole US dollars per million tokens, in and out, for one model: published
/// list prices, at the standard rate.
pub fn rate_card(model: ModelId) -> (r: (u32, u32))
    ensures
        r == rates(model),
{
    match model {
        ModelId::Haiku45 => (1, 5),
        ModelId::Sonnet5 => (3, 15),
        ModelId::Opus5 => (5, 25),
        ModelId::Fable5 => (10, 50),
    }
}

/// The models are ranked by price: a higher one costs more, in and out.
pub proof fn law_rank_is_price_order(a: ModelId, b: ModelId)
    requires
        a.rank() < b.rank(),
    ensures
        rates(a).0 < rates(b).0,
        rates(a).1 < rates(b).1,
{
}

/// What comes out is billed at five times what goes in, on every model.
pub proof fn law_output_costs_five_times_input(model: ModelId)
    ensures
        rates(model).1 == 5 * rates(model).0,
{
}

} // verus!
