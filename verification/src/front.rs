//! The data model of the structured (schema-based) configuration front
//! end.  An outside deserializer fills these records from a nested
//! document; a front end outside this crate turns them into the same
//! `Mode` model the grammar produces, tolerating bad entries one by one
//! instead of failing the whole file.

use vstd::prelude::*;
use crate::text::{str_chars, eq_lit};

verus! {

/// A whole structured configuration document.
#[derive(Debug)]
pub struct ConfigNew {
    pub modes: Vec<(String, ConfigMode)>,
}

/// One mode of a structured document.
#[derive(Debug)]
pub struct ConfigMode {
    pub hotkeys: Vec<(String, CommandConfig)>,
    pub swallow: Option<bool>,
    pub oneoff: Option<bool>,
}

/// One hotkey entry of a structured document.
#[derive(Debug)]
pub struct CommandConfig {
    pub action_type: Option<String>,
    pub action: String,
    pub send: Option<bool>,
    pub on_release: Option<bool>,
}

/// A structured document with an optional key remap table.
#[derive(Debug)]
pub struct ConfigRead {
    pub modes: Vec<(String, ConfigReadMode)>,
    pub remaps: Option<Vec<(String, String)>>,
}

/// One mode of a structured document with remaps.
#[derive(Debug)]
pub struct ConfigReadMode {
    pub hotkeys: Vec<(String, CommandConfig)>,
    pub swallow: Option<bool>,
    pub oneoff: Option<bool>,
}

/// How a structured hotkey entry fires.
#[derive(Clone, Copy, PartialEq, Eq, Structural, Debug)]
pub enum ActionType {
    Command,
    SingleCommand,
}

impl ActionType {
    /// Reads an action type name; `Command`/`command` and
    /// `SingleCommand`/`Singlecommand`/`singlecommand` are the accepted
    /// spellings, anything else is refused.
    pub fn from_str(s: &str) -> (r: Result<ActionType, ()>)
        ensures
            (s@ == "Command"@ || s@ == "command"@) ==> r == Ok::<ActionType, ()>(
                ActionType::Command,
            ),
            (s@ == "SingleCommand"@ || s@ == "Singlecommand"@ || s@ == "singlecommand"@) ==> r
                == Ok::<ActionType, ()>(ActionType::SingleCommand),
            !(s@ == "Command"@ || s@ == "command"@ || s@ == "SingleCommand"@ || s@
                == "Singlecommand"@ || s@ == "singlecommand"@) ==> r is Err,
    {
        proof {
            reveal_strlit("Command");
            reveal_strlit("command");
            reveal_strlit("SingleCommand");
            reveal_strlit("Singlecommand");
            reveal_strlit("singlecommand");
            assert("Command"@.len() == 7);
            assert("command"@.len() == 7);
            assert("SingleCommand"@.len() == 13);
            assert("Singlecommand"@.len() == 13);
            assert("singlecommand"@.len() == 13);
        }
        let chars = str_chars(s);
        if eq_lit(&chars, "Command") || eq_lit(&chars, "command") {
            Ok(ActionType::Command)
        } else if eq_lit(&chars, "SingleCommand") || eq_lit(&chars, "Singlecommand") || eq_lit(
            &chars,
            "singlecommand",
        ) {
            Ok(ActionType::SingleCommand)
        } else {
            Err(())
        }
    }
}

} // verus!
