//! The commands of the program and their arguments.
use vstd::prelude::*;

use crate::presentation::Presentation;

verus! {

/// The program's arguments: one command.
#[derive(Debug)]
pub struct RScrapeArgs {
    pub sub_command: RScrapeCommand,
}

/// The commands.
#[derive(Debug)]
pub enum RScrapeCommand {
    /// Scrape a website and present the data.
    Scrape(ScrapeCommand),
    /// Show a saved scrape's settings and the command that runs it.
    Check(CheckCommand),
    /// List the names of all saved scrapes.
    List(ListCommand),
    /// Combine saved scrapes under a new name.
    Combine(CombineCommand),
    /// Run a saved scrape.
    Run(RunCommand),
    /// Delete a saved scrape.
    Delete(DeleteCommand),
}

/// Arguments of the combine command.
#[derive(Debug)]
pub struct CombineCommand {
    pub name: String,
    pub scrapes: Vec<String>,
}

/// Arguments of the scrape command.
#[derive(Debug)]
pub struct ScrapeCommand {
    pub url: String,
    pub selectors: Vec<String>,
    pub keys: Vec<String>,
    /// `<selector index>:<attribute>`, at most one per selector.
    pub attributes: Option<Vec<String>>,
    /// `<selector index>:<prefix>`, at most one per selector.
    pub prefixes: Option<Vec<String>>,
    /// `<selector index>:<suffix>`, at most one per selector.
    pub suffixes: Option<Vec<String>>,
    pub title: Option<String>,
    /// The name to save the scrape under.
    pub save: Option<String>,
    pub present: Option<Presentation>,
    /// The file to export the results to (`.json` or `.csv`).
    pub export: Option<String>,
}

/// Arguments of the check command.
#[derive(Debug)]
pub struct CheckCommand {
    pub name: String,
}

/// Arguments of the delete command.
#[derive(Debug)]
pub struct DeleteCommand {
    pub name: String,
}

/// Arguments of the list command: none.
#[derive(Debug)]
pub struct ListCommand {}

/// Arguments of the run command.
#[derive(Debug)]
pub struct RunCommand {
    pub name: String,
}

/// Arguments of the inspect command.
#[derive(Debug)]
pub struct InspectCommand {
    pub url: String,
    pub filter: Option<String>,
    pub search: Option<String>,
}

} // verus!
