//! The domain model of an agent platform: identifiers, money, messages,
//! actions, the policy that rules on them, and the organisation around them.

pub mod action;
pub mod decimal;
pub mod employee;
pub mod forecast;
pub mod identity;
pub mod ids;
pub mod initiative;
pub mod message;
pub mod model_access;
pub mod money;
pub mod ordered;
pub mod org;
pub mod phone_pool;
pub mod policy;
pub mod psyche;
pub mod text;
pub mod time;
pub mod untrusted;
