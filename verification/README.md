# agentos_domain

The domain of a company of software employees: who they are, what they may do,
what it costs, and what they come to believe and to trust. The rules are pure
functions of plain values; no clock, no randomness, no I/O.

- `src/` is the library, verified with Verus. Every rule is stated over a
  mathematical model of its types, and the laws that span rules are public proof
  functions (`law_…`).
- `tests/` runs the library on concrete values.
- `app/` is ordinary Rust around it: wire formats, boxed errors, conversions, and
  the floating-point arithmetic of forecasts, expectations, forgetting and trust.
  A model's name on the wire is its vendor's name, a hyphen and its own;
  `app/vendor.rs` reads the vendor from the deployment's environment.

| module | what it holds |
|---|---|
| `text`, `decimal`, `ordered`, `time` | characters and numerals, ordered sets and maps, instants and spans |
| `ids`, `money`, `untrusted`, `message`, `identity` | identifiers, amounts, tainted text, messages, public keys |
| `action`, `policy`, `org` | what an employee may ask for, what limits allow, what teams narrow |
| `employee`, `initiative`, `phone_pool`, `model_access`, `forecast` | provisioning, schedules, numbers, model connections, rates |
| `psyche` | beliefs and their grounds, expectations, forgetting, trust |

Calls into other crates (`uuid`, `chrono`, `url`, `base64`,
`unicode-normalization`) stand behind small wrappers whose contracts are believed
without proof; each says which function it calls and what is claimed of it.
