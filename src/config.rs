//! The tool's settings and their defaults.
use crate::path::views;
use vstd::prelude::*;

verus! {

/// The delimiter written around each file's header by default.
pub const DEFAULT_DELIMITER: &'static str = "---";

/// The extension collected by default.
pub const DEFAULT_EXTENSION: &'static str = "rs";

/// The prompt placed at the top of the output by default.
pub const DEFAULT_LLM_PROMPT: &'static str = r#"This is a concatenated source code file containing multiple source files from a project.
Each file section begins and ends with a delimiter line "---".
After the opening delimiter, there is metadata about the file:
- File: relative path to the source file
- Last commit: Git commit hash of the last change
- Last update: Unix timestamp of the last change

Please analyze the code with these aspects in mind:
1. The relationship and dependencies between files
2. The overall architecture and design patterns used
3. Any potential improvements or issues you notice
4. Consider the context of changes based on the Git metadata

The code sections follow below:"#;

/// The settings: the delimiter around file headers, the extensions to
/// collect, the prompt that opens the output, and the folders to leave out.
#[derive(Debug)]
pub struct Config {
    pub delimiter: String,
    pub extensions: Vec<String>,
    pub llm_prompt: String,
    pub excluded_folders: Vec<String>,
}

/// The default prompt.
pub fn default_llm_prompt() -> (r: String)
    ensures
        r@ == DEFAULT_LLM_PROMPT@,
{
    String::from_str(DEFAULT_LLM_PROMPT)
}

impl Config {
    /// The default settings: delimiter `---`, the one extension `rs`, the
    /// default prompt, and no excluded folder.
    pub fn default() -> (c: Config)
        ensures
            c.delimiter@ == DEFAULT_DELIMITER@,
            views(c.extensions@) == seq![DEFAULT_EXTENSION@],
            c.llm_prompt@ == DEFAULT_LLM_PROMPT@,
            c.excluded_folders@.len() == 0,
    {
        let mut extensions: Vec<String> = Vec::new();
        extensions.push(String::from_str(DEFAULT_EXTENSION));
        assert(views(extensions@) =~= seq![DEFAULT_EXTENSION@]);
        Config {
            delimiter: String::from_str(DEFAULT_DELIMITER),
            extensions,
            llm_prompt: default_llm_prompt(),
            excluded_folders: Vec::new(),
        }
    }
}

} // verus!
