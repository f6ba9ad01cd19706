//! Application settings shapes and their defaults. Loading and saving them,
//! and the keyring the API key lives in, are I/O and live outside the
//! verified crate.

use vstd::prelude::*;

verus! {

use crate::text::str_eq;
use vstd::string::StringExecFns;

/// The persisted application settings.
pub struct AppSettings {
    pub provider: String,
    pub chat_model: String,
    pub embedding_model: String,
    pub theme_accent: Option<String>,
}

/// Whether an API key is configured, and the settings that go with it.
pub struct ApiStatus {
    pub has_key: bool,
    pub settings: AppSettings,
}

/// A request to store an API key.
pub struct SaveKeyRequest {
    pub api_key: String,
}

/// The settings used when none were saved or the saved ones cannot be read.
pub fn default_settings() -> (r: AppSettings)
    ensures
        r.provider@ == "openai"@,
        r.chat_model@ == "gpt-4o-mini"@,
        r.embedding_model@ == "text-embedding-3-small"@,
        r.theme_accent is None,
{
    AppSettings {
        provider: String::from_str("openai"),
        chat_model: String::from_str("gpt-4o-mini"),
        embedding_model: String::from_str("text-embedding-3-small"),
        theme_accent: None,
    }
}

/// Which provider the settings select: the one named `gemini`, or the
/// default. Every other value falls back to the default provider.
pub fn provider_is_gemini(settings: &AppSettings) -> (r: bool)
    ensures
        r == (settings.provider@ == "gemini"@),
{
    str_eq(settings.provider.as_str(), "gemini")
}

} // verus!
