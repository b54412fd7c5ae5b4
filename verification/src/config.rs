//! The configuration: its values, defaults and keys. Reading and writing
//! the file is left to the caller.

use vstd::prelude::*;

use crate::text::{concat, owned, str_eq};

verus! {

/// The whole configuration.
#[derive(Debug)]
pub struct Config {
    pub appium: AppiumConfig,
}

/// The Appium section.
#[derive(Debug)]
pub struct AppiumConfig {
    /// The base URL of the Appium server.
    pub url: String,
}

/// The Appium server URL used when none is configured.
pub open spec fn default_url() -> Seq<char> {
    "http://localhost:4723"@
}

/// The Appium server URL used when none is configured.
pub fn default_appium_url() -> (r: String)
    ensures
        r@ == default_url(),
{
    owned("http://localhost:4723")
}

impl Default for AppiumConfig {
    fn default() -> (r: AppiumConfig)
        ensures
            r.url@ == default_url(),
    {
        AppiumConfig { url: default_appium_url() }
    }
}

impl Default for Config {
    fn default() -> (r: Config)
        ensures
            r.appium.url@ == default_url(),
    {
        Config { appium: AppiumConfig::default() }
    }
}

/// The one key the configuration has.
pub open spec fn url_key() -> Seq<char> {
    "appium.url"@
}

/// The message for a key the configuration does not have.
pub open spec fn unknown_key_message(key: Seq<char>) -> Seq<char> {
    "clave desconocida: "@ + key
}

/// The value of `key` in a configuration whose URL is `url`.
pub open spec fn get_result(url: Seq<char>, key: Seq<char>) -> Result<Seq<char>, Seq<char>> {
    if key == url_key() {
        Ok(url)
    } else {
        Err(unknown_key_message(key))
    }
}

/// The URL after setting `key` to `value` in a configuration whose URL is
/// `url`, or the error.
pub open spec fn set_result(url: Seq<char>, key: Seq<char>, value: Seq<char>) -> Result<Seq<char>, Seq<char>> {
    if key == url_key() {
        Ok(value)
    } else {
        Err(unknown_key_message(key))
    }
}

impl Config {
    /// The value of `key`, or the message for an unknown key.
    pub fn get_key(&self, key: &str) -> (r: Result<String, String>)
        ensures
            match r {
                Ok(v) => get_result(self.appium.url@, key@) == Ok::<Seq<char>, Seq<char>>(v@),
                Err(m) => get_result(self.appium.url@, key@) == Err::<Seq<char>, Seq<char>>(m@),
            },
    {
        if str_eq(key, "appium.url") {
            Ok(self.appium.url.clone())
        } else {
            Err(concat("clave desconocida: ", key))
        }
    }

    /// Sets `key` to `value`; an unknown key leaves the configuration as it
    /// was and gives its message.
    pub fn set_key(&mut self, key: &str, value: String) -> (r: Result<(), String>)
        ensures
            match r {
                Ok(()) => set_result(old(self).appium.url@, key@, value@) == Ok::<Seq<char>, Seq<char>>(final(self).appium.url@),
                Err(m) => set_result(old(self).appium.url@, key@, value@) == Err::<Seq<char>, Seq<char>>(m@)
                    && final(self).appium.url@ == old(self).appium.url@,
            },
    {
        if str_eq(key, "appium.url") {
            self.appium.url = value;
            Ok(())
        } else {
            Err(concat("clave desconocida: ", key))
        }
    }
}

/// Reading a key gives back what was last written to it.
pub proof fn lemma_get_after_set(url: Seq<char>, key: Seq<char>, value: Seq<char>)
    ensures
        set_result(url, key, value) matches Ok(u) ==> get_result(u, key) == Ok::<Seq<char>, Seq<char>>(value),
        set_result(url, key, value) is Err ==> get_result(url, key) is Err,
{
}

/// `appium.url` is the one key: reading it gives the URL and writing it
/// replaces the URL; any other key is refused by name, for reading and
/// for writing alike.
pub proof fn lemma_the_one_key(url: Seq<char>, key: Seq<char>, value: Seq<char>)
    ensures
        get_result(url, "appium.url"@) == Ok::<Seq<char>, Seq<char>>(url),
        set_result(url, "appium.url"@, value) == Ok::<Seq<char>, Seq<char>>(value),
        key != "appium.url"@ ==> get_result(url, key) == Err::<Seq<char>, Seq<char>>("clave desconocida: "@ + key),
        key != "appium.url"@ ==> set_result(url, key, value) == Err::<Seq<char>, Seq<char>>(
            "clave desconocida: "@ + key,
        ),
{
}

} // verus!
