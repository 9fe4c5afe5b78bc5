//! Whose model the tenant thinks with, and by what path: a resource the tenant
//! owns, and no policy. A connection names the model that a credential was
//! proven to reach; which model a turn runs is decided by
//! [`crate::policy::model_for`] alone.
use crate::policy::ModelId;
use crate::text::same_text;
use crate::time::Timestamp;
use vstd::prelude::*;
use vstd::string::*;

verus! {

/// How this tenant's employees reach a model.
#[derive(Debug, Clone, Copy, PartialEq, Eq, Structural, Hash)]
pub enum ModelPath {
    /// The tenant pasted an API key. Their key pays.
    ApiKey,
    /// The tenant runs the model from the host this deployment sits on.
    Cli,
}

impl ModelPath {
    /// Both paths.
    pub const ALL: [ModelPath; 2] = [ModelPath::ApiKey, ModelPath::Cli];

    /// The stored name of a path.
    pub open spec fn name(self) -> Seq<char> {
        match self {
            ModelPath::ApiKey => "api_key"@,
            ModelPath::Cli => "cli"@,
        }
    }

    /// The stored spelling.
    pub fn as_str(self) -> (r: &'static str)
        ensures
            r@ == self.name(),
    {
        match self {
            ModelPath::ApiKey => "api_key",
            ModelPath::Cli => "cli",
        }
    }

    /// The inverse. `None` for anything else.
    pub fn parse(raw: &str) -> (r: Option<ModelPath>)
        ensures
            match r {
                Some(p) => raw@ == p.name(),
                None => forall|p: ModelPath| raw@ != #[trigger] p.name(),
            },
            forall|p: ModelPath| raw@ == #[trigger] p.name() ==> r == Some(p),
    {
        proof {
            reveal_strlit("api_key");
            reveal_strlit("cli");
            assert("api_key"@.len() != "cli"@.len());
        }
        for i in 0..ModelPath::ALL.len()
            invariant
                forall|k: int| 0 <= k < i ==> raw@ != (#[trigger] ModelPath::ALL@[k]).name(),
                "api_key"@.len() != "cli"@.len(),
        {
            let path = ModelPath::ALL[i];
            if same_text(path.as_str(), raw) {
                return Some(path);
            }
        }
        proof {
            assert(ModelPath::ALL@[0] == ModelPath::ApiKey);
            assert(ModelPath::ALL@[1] == ModelPath::Cli);
        }
        None
    }

    /// Does this path spend the host's model rather than the tenant's own
    /// credential?
    pub fn is_host(self) -> (r: bool)
        ensures
            r == (self is Cli),
    {
        matches!(self, ModelPath::Cli)
    }

    /// Whether a credential has to be supplied to connect this path.
    pub fn needs_secret(self) -> (r: bool)
        ensures
            r == (self is ApiKey),
    {
        matches!(self, ModelPath::ApiKey)
    }
}

/// A tenant's model connection, as it was proven. There is no key in here and
/// no way to put one in.
#[derive(Debug, Clone, Copy, PartialEq, Eq, Structural)]
pub struct ModelAccess {
    /// API key or host CLI.
    pub path: ModelPath,
    /// The model this credential was proven to reach, and nothing more.
    pub model: ModelId,
    /// When the verification call returned success.
    pub verified_at: Timestamp,
}

/// What one call to the provider showed. Unless it connected, nothing was
/// stored.
#[derive(Debug, Clone, Copy, PartialEq, Eq, Structural, Hash)]
pub enum Verdict {
    /// The call returned a completion.
    Connected,
    /// The key is wrong, revoked, or from another vendor.
    KeyRefused,
    /// The key is real and this model is not on it.
    ModelNotAccessible,
    /// The provider refused the call for another reason.
    Unusable,
    /// A timeout or an overload: says nothing about the credential.
    Unreachable,
}

impl Verdict {
    /// What a provider's error code means.
    pub open spec fn of_code(code: Seq<char>) -> Verdict {
        if code == "unauthorized"@ || code == "forbidden"@ {
            Verdict::KeyRefused
        } else if code == "not_found"@ {
            Verdict::ModelNotAccessible
        } else if code == "retryable"@ || code == "rate_limited"@ {
            Verdict::Unreachable
        } else {
            Verdict::Unusable
        }
    }

    /// Classify one attempt from the provider error's own code. A code that is
    /// not recognised is terminal: to ask again forever would be worse.
    pub fn from_provider_code(code: &str) -> (r: Verdict)
        ensures
            r == Verdict::of_code(code@),
            !(r is Connected),
    {
        if same_text(code, "unauthorized") || same_text(code, "forbidden") {
            Verdict::KeyRefused
        } else if same_text(code, "not_found") {
            Verdict::ModelNotAccessible
        } else if same_text(code, "retryable") || same_text(code, "rate_limited") {
            Verdict::Unreachable
        } else {
            Verdict::Unusable
        }
    }

    /// Did this connect the tenant?
    pub fn is_connected(self) -> (r: bool)
        ensures
            r == (self is Connected),
    {
        matches!(self, Verdict::Connected)
    }

    /// The metric label of a verdict.
    pub open spec fn label(self) -> Seq<char> {
        match self {
            Verdict::Connected => "connected"@,
            Verdict::KeyRefused => "key_refused"@,
            Verdict::ModelNotAccessible => "model_not_accessible"@,
            Verdict::Unusable => "unusable"@,
            Verdict::Unreachable => "unreachable"@,
        }
    }

    /// Stable, low-cardinality metric label.
    pub fn code(self) -> (r: &'static str)
        ensures
            r@ == self.label(),
    {
        match self {
            Verdict::Connected => "connected",
            Verdict::KeyRefused => "key_refused",
            Verdict::ModelNotAccessible => "model_not_accessible",
            Verdict::Unusable => "unusable",
            Verdict::Unreachable => "unreachable",
        }
    }

    /// What a person setting this up reads.
    pub open spec fn sentence(self) -> Seq<char> {
        match self {
            Verdict::Connected =>
                "connected: the key answered on this model, and nothing else was needed"@,
            Verdict::KeyRefused =>
                "the provider refused this key. Check it at console.anthropic.com -> API keys; keys begin `sk-ant-`. Nothing was stored"@,
            Verdict::ModelNotAccessible =>
                "the key is valid and this model is not available on it. Pick another model, or ask whoever owns the Anthropic workspace to grant it. Nothing was stored"@,
            Verdict::Unusable =>
                "the key reached the provider and the call was refused. The usual cause is an empty credit balance on the account the key belongs to. Nothing was stored"@,
            Verdict::Unreachable =>
                "the provider did not answer in time, or asked us to slow down. This says nothing about the key — try again. Nothing was stored"@,
        }
    }

    /// The sentence a person setting this up reads. Fixed, and containing
    /// nothing the provider sent back.
    pub fn explain(self) -> (r: &'static str)
        ensures
            r@ == self.sentence(),
    {
        match self {
            Verdict::Connected => {
                "connected: the key answered on this model, and nothing else was needed"
            },
            Verdict::KeyRefused => {
                "the provider refused this key. Check it at console.anthropic.com -> API keys; keys begin `sk-ant-`. Nothing was stored"
            },
            Verdict::ModelNotAccessible => {
                "the key is valid and this model is not available on it. Pick another model, or ask whoever owns the Anthropic workspace to grant it. Nothing was stored"
            },
            Verdict::Unusable => {
                "the key reached the provider and the call was refused. The usual cause is an empty credit balance on the account the key belongs to. Nothing was stored"
            },
            Verdict::Unreachable => {
                "the provider did not answer in time, or asked us to slow down. This says nothing about the key — try again. Nothing was stored"
            },
        }
    }
}

/// No code that a provider answers an error with connects a tenant.
pub proof fn law_no_error_code_connects(code: Seq<char>)
    ensures
        !(Verdict::of_code(code) is Connected),
{
}

/// What an error code says of a credential: only a code that refuses the caller
/// says that the key is wrong, only one that finds nothing says that the model is
/// missing, only one that asks for patience says nothing, and every other code is
/// final.
pub proof fn law_a_code_says_what_it_means(code: Seq<char>)
    ensures
        Verdict::of_code(code) is KeyRefused <==> code == "unauthorized"@ || code == "forbidden"@,
        code == "not_found"@ ==> !(Verdict::of_code(code) is Unusable) && !(Verdict::of_code(
            code,
        ) is Unreachable),
        Verdict::of_code(code) is ModelNotAccessible ==> code == "not_found"@,
        Verdict::of_code(code) is Unreachable ==> code == "retryable"@ || code == "rate_limited"@,
        Verdict::of_code(code) is Unusable <==> code != "unauthorized"@ && code != "forbidden"@
            && code != "not_found"@ && code != "retryable"@ && code != "rate_limited"@,
{
}

} // verus!
