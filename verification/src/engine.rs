use vstd::prelude::*;
use vstd::string::StringExecFns;
use crate::text::str_eq;

verus! {

/// The selected LLM backend.
#[derive(Clone, Copy, Debug, PartialEq, Eq, Structural)]
pub enum Engine {
    Openai,
    Ollama,
    Google,
}

/// Maps a normalized engine token to the backend it names; every other
/// token is rejected.
pub fn parse_engine(s: &str) -> (r: Option<Engine>)
    ensures
        r == Some(Engine::Openai) <==> s@ == "openai"@,
        r == Some(Engine::Ollama) <==> s@ == "ollama"@,
        r == Some(Engine::Google) <==> s@ == "google"@,
        r is None <==> (s@ != "openai"@ && s@ != "ollama"@ && s@ != "google"@),
{
    proof {
        reveal_strlit("openai");
        reveal_strlit("ollama");
        reveal_strlit("google");
        assert(("openai"@)[2] != ("ollama"@)[2]);
        assert(("openai"@)[0] != ("google"@)[0]);
        assert(("ollama"@)[0] != ("google"@)[0]);
    }
    if str_eq(s, "openai") {
        Some(Engine::Openai)
    } else if str_eq(s, "ollama") {
        Some(Engine::Ollama)
    } else if str_eq(s, "google") {
        Some(Engine::Google)
    } else {
        None
    }
}

/// The canonical token for an engine, the inverse of `parse_engine`.
pub fn engine_name(e: Engine) -> (r: String)
    ensures
        e == Engine::Openai ==> r@ == "openai"@,
        e == Engine::Ollama ==> r@ == "ollama"@,
        e == Engine::Google ==> r@ == "google"@,
{
    match e {
        Engine::Openai => String::from_str("openai"),
        Engine::Ollama => String::from_str("ollama"),
        Engine::Google => String::from_str("google"),
    }
}

/// Whether the engine requires an API credential before a request.
pub fn needs_key(e: Engine) -> (r: bool)
    ensures
        r == (e == Engine::Openai || e == Engine::Google),
{
    match e {
        Engine::Openai => true,
        Engine::Google => true,
        Engine::Ollama => false,
    }
}

} // verus!
