//! The configuration of the listener: where each setting comes from, what
//! stands in for one that is missing, and which are required.

use vstd::prelude::*;
use vstd::string::StringExecFns;
use vstd::utf8::encode_utf8;
use crate::address::{accumulated, address_of, HardwareAddress, ParseError};
use crate::listener::DEFAULT_TRIGGER;

verus! {

/// The settings as they were found in one place, each one there or not.
#[derive(Debug)]
pub struct Settings {
    /// The hardware address of the device to wake, in its written form.
    pub address: Option<String>,
    /// The host to listen on.
    pub host: Option<String>,
    /// The port to listen on.
    pub port: Option<String>,
    /// The text whose first octet is the trigger.
    pub trigger: Option<String>,
}

/// The configuration that the listener runs with.
#[derive(Debug)]
pub struct Config {
    /// The hardware address of the device to wake.
    pub address: HardwareAddress,
    /// The host to listen on.
    pub host: String,
    /// The port to listen on; `0` leaves the choice to the system.
    pub port: String,
    /// The route octet that triggers the broadcast.
    pub trigger: u8,
}

/// Why no configuration could be made of the settings.
#[derive(Clone, Copy, Debug, PartialEq, Eq)]
pub enum ConfigurationError {
    /// No hardware address was given.
    MissingAddress,
    /// The hardware address given is not six colon-separated groups of one
    /// or two hexadecimal digits.
    InvalidAddress {
        /// What the text given accumulated to, to show in a diagnostic.
        parsed: Option<u64>,
    },
}

/// The text of a setting, if it is there.
pub open spec fn text_of(setting: Option<String>) -> Option<Seq<char>> {
    match setting {
        Some(text) => Some(text@),
        None => None,
    }
}

/// The value that the last pair named `flag` gives among the first `pairs`
/// pairs of `args`, where the arguments are read two by two as a name and
/// its value.
pub open spec fn value_in_pairs(args: Seq<String>, flag: Seq<char>, pairs: nat) -> Option<
    Seq<char>,
>
    decreases pairs,
{
    if pairs == 0 {
        None
    } else if args[2 * (pairs - 1)]@ == flag {
        Some(args[2 * (pairs - 1) + 1]@)
    } else {
        value_in_pairs(args, flag, (pairs - 1) as nat)
    }
}

/// The value that the arguments give for `flag`: that of the last pair with
/// this name. An argument left over at the end belongs to no pair.
pub open spec fn flag_value(args: Seq<String>, flag: Seq<char>) -> Option<Seq<char>> {
    value_in_pairs(args, flag, (args.len() / 2) as nat)
}

/// The trigger that a text stands for: the first octet of its UTF-8 form,
/// or a space where the text is empty.
pub open spec fn trigger_of_text(text: Seq<char>) -> u8 {
    if encode_utf8(text).len() == 0 {
        0x20
    } else {
        encode_utf8(text)[0]
    }
}

/// Whether `arg` is one of the two arguments that ask for help.
pub open spec fn asks_for_help(arg: Seq<char>) -> bool {
    arg == "--help"@ || arg == "-h"@
}

/// The text of `setting`, or `fallback` where it is missing.
pub open spec fn text_or(setting: Option<String>, fallback: Seq<char>) -> Seq<char> {
    match setting {
        Some(text) => text@,
        None => fallback,
    }
}

/// Looks up the value given for `flag` on the command line.
pub fn lookup(args: &Vec<String>, flag: &str) -> (value: Option<String>)
    ensures
        text_of(value) == flag_value(args@, flag@),
{
    let name = String::from_str(flag);
    let mut value: Option<String> = None;
    let mut i: usize = 0;
    while i + 1 < args.len()
        invariant
            i % 2 == 0,
            i <= args.len(),
            name@ == flag@,
            text_of(value) == value_in_pairs(args@, flag@, (i / 2) as nat),
        decreases args.len() - i,
    {
        if args[i] == name {
            value = Some(args[i + 1].clone());
        }
        i = i + 2;
    }
    value
}

/// Whether help was asked for: one of the arguments is `--help` or `-h`.
pub fn wants_help(args: &Vec<String>) -> (asked: bool)
    ensures
        asked <==> exists|i: int| 0 <= i < args.len() && asks_for_help(#[trigger] args[i]@),
{
    let long = String::from_str("--help");
    let short = String::from_str("-h");
    let mut i: usize = 0;
    while i < args.len()
        invariant
            i <= args.len(),
            long@ == "--help"@,
            short@ == "-h"@,
            forall|k: int| 0 <= k < i ==> !asks_for_help(#[trigger] args[k]@),
        decreases args.len() - i,
    {
        if args[i] == long || args[i] == short {
            return true;
        }
        i = i + 1;
    }
    false
}

/// The trigger that `text` stands for.
pub fn trigger_octet(text: &str) -> (trigger: u8)
    ensures
        trigger == trigger_of_text(text@),
{
    let octets = text.as_bytes();
    if octets.len() == 0 {
        0x20
    } else {
        octets[0]
    }
}

impl Settings {
    /// The settings that the command line gives: `--mac`, `--addr`, `--port`
    /// and `--char`, each followed by its value. `args` are the arguments
    /// behind the name of the program.
    pub fn from_args(args: &Vec<String>) -> (settings: Settings)
        ensures
            text_of(settings.address) == flag_value(args@, "--mac"@),
            text_of(settings.host) == flag_value(args@, "--addr"@),
            text_of(settings.port) == flag_value(args@, "--port"@),
            text_of(settings.trigger) == flag_value(args@, "--char"@),
    {
        Settings {
            address: lookup(args, "--mac"),
            host: lookup(args, "--addr"),
            port: lookup(args, "--port"),
            trigger: lookup(args, "--char"),
        }
    }

    /// These settings, with each missing one taken from `fallback`.
    pub fn or(self, fallback: Settings) -> (merged: Settings)
        ensures
            merged.address == if self.address is Some { self.address } else { fallback.address },
            merged.host == if self.host is Some { self.host } else { fallback.host },
            merged.port == if self.port is Some { self.port } else { fallback.port },
            merged.trigger == if self.trigger is Some { self.trigger } else { fallback.trigger },
    {
        Settings {
            address: if self.address.is_some() { self.address } else { fallback.address },
            host: if self.host.is_some() { self.host } else { fallback.host },
            port: if self.port.is_some() { self.port } else { fallback.port },
            trigger: if self.trigger.is_some() { self.trigger } else { fallback.trigger },
        }
    }
}

impl Config {
    /// Makes the configuration of the settings.
    ///
    /// The address is required and must be well formed. A missing host is
    /// `0.0.0.0`, all interfaces; a missing port is `0`; a missing trigger
    /// is the letter `w`.
    pub fn resolve(settings: Settings) -> (result: Result<Config, ConfigurationError>)
        ensures
            match result {
                Ok(config) => {
                    &&& settings.address matches Some(text)
                    &&& address_of(text@) == Some(config.address@)
                    &&& config.host@ == text_or(settings.host, "0.0.0.0"@)
                    &&& config.port@ == text_or(settings.port, "0"@)
                    &&& config.trigger == match settings.trigger {
                        Some(text) => trigger_of_text(text@),
                        None => DEFAULT_TRIGGER,
                    }
                },
                Err(ConfigurationError::MissingAddress) => settings.address is None,
                Err(ConfigurationError::InvalidAddress { parsed }) => {
                    &&& settings.address matches Some(text)
                    &&& address_of(text@) is None
                    &&& parsed == accumulated(text@)
                },
            },
    {
        let address = match settings.address {
            Some(text) => match HardwareAddress::parse(text.as_str()) {
                Ok(address) => address,
                Err(ParseError::InvalidFormat { parsed }) => {
                    return Err(ConfigurationError::InvalidAddress { parsed });
                },
            },
            None => {
                return Err(ConfigurationError::MissingAddress);
            },
        };
        let host = match settings.host {
            Some(text) => text,
            None => String::from_str("0.0.0.0"),
        };
        let port = match settings.port {
            Some(text) => text,
            None => String::from_str("0"),
        };
        let trigger = match settings.trigger {
            Some(text) => trigger_octet(text.as_str()),
            None => DEFAULT_TRIGGER,
        };
        Ok(Config { address, host, port, trigger })
    }

    /// The address to listen on: the host, a colon, the port.
    pub fn bind_address(&self) -> (text: String)
        ensures
            text@ == self.host@ + ":"@ + self.port@,
    {
        self.host.clone().concat(":").concat(self.port.as_str())
    }
}

} // verus!
