//! Model settings, usage, cost and budgets.
//!
//! Monetary amounts and the sampling temperature are carried as the IEEE 754
//! bits of the number; no decision of this library depends on their value.
use crate::id::ModelCallId;
use vstd::prelude::*;

verus! {

/// Serializable, non-secret settings for an OpenAI-compatible endpoint.
///
/// Credentials are deliberately absent. API keys must be supplied to model
/// clients through a separate runtime secret mechanism.
#[derive(Debug, Clone, PartialEq, Eq)]
pub struct ModelConfig {
    pub endpoint: String,
    pub model: String,
    pub reasoning_mode: Option<String>,
    pub reasoning_effort: Option<String>,
    pub temperature_bits: Option<u32>,
    pub max_output_tokens: Option<u32>,
    pub context_window_tokens: Option<u32>,
}

#[derive(Debug, Clone, Copy, PartialEq, Eq, Structural)]
pub struct TokenUsage {
    pub input_tokens: u64,
    pub output_tokens: u64,
    pub cached_input_tokens: u64,
    pub total_tokens: u64,
}

impl Default for TokenUsage {
    fn default() -> (usage: TokenUsage)
        ensures
            usage == (TokenUsage {
                input_tokens: 0,
                output_tokens: 0,
                cached_input_tokens: 0,
                total_tokens: 0,
            }),
    {
        TokenUsage { input_tokens: 0, output_tokens: 0, cached_input_tokens: 0, total_tokens: 0 }
    }
}

#[derive(Debug, PartialEq, Eq)]
pub struct Cost {
    pub currency: String,
    pub amount_bits: u64,
    pub estimated: bool,
}

impl Clone for Cost {
    fn clone(&self) -> (copy: Cost)
        ensures
            copy == *self,
    {
        Cost {
            currency: self.currency.clone(),
            amount_bits: self.amount_bits,
            estimated: self.estimated,
        }
    }
}

#[derive(Debug, PartialEq, Eq)]
pub struct ModelUsage {
    pub tokens: TokenUsage,
    pub cost: Option<Cost>,
}

impl Clone for ModelUsage {
    fn clone(&self) -> (copy: ModelUsage)
        ensures
            copy == *self,
    {
        let cost = match &self.cost {
            Some(cost) => Some(cost.clone()),
            None => None,
        };
        ModelUsage { tokens: self.tokens, cost }
    }
}

/// The terminal outcome of one actual model request attempt.
#[derive(Debug, Clone, PartialEq, Eq)]
pub enum ModelCallOutcome {
    Succeeded,
    Failed { message: String, retryable: bool },
    Cancelled,
    TimedOut,
}

/// A presentation-neutral ledger entry for one request attempt, including retries.
#[derive(Debug, Clone, PartialEq, Eq)]
pub struct ModelCallRecord {
    pub id: ModelCallId,
    pub sequence: u64,
    pub model: String,
    pub outcome: ModelCallOutcome,
    pub usage: Option<TokenUsage>,
    pub cost: Option<Cost>,
}

#[derive(Debug, Clone, PartialEq, Eq)]
pub struct MonetaryBudget {
    pub currency: String,
    pub amount_bits: u64,
}

/// Limits applied independently to each agent task.
#[derive(Debug, Clone, PartialEq, Eq)]
pub struct ModelBudget {
    pub max_total_tokens: Option<u64>,
    pub max_cost: Option<MonetaryBudget>,
}

impl Default for ModelBudget {
    fn default() -> (budget: ModelBudget)
        ensures
            budget.max_total_tokens is None,
            budget.max_cost is None,
    {
        ModelBudget { max_total_tokens: None, max_cost: None }
    }
}

impl ModelBudget {
    pub fn is_enabled(&self) -> (enabled: bool)
        ensures
            enabled == (self.max_total_tokens is Some || self.max_cost is Some),
    {
        self.max_total_tokens.is_some() || self.max_cost.is_some()
    }
}

#[derive(Debug, Clone, PartialEq, Eq)]
pub struct ModelBudgetStatus {
    pub budget: ModelBudget,
    pub usage: ModelUsage,
}

#[derive(Debug, Clone, PartialEq, Eq)]
pub enum BudgetStopReason {
    TotalTokensReached { used: u64, limit: u64 },
    CostReached { used_bits: u64, limit: MonetaryBudget },
    UsageUnavailable,
}

} // verus!
