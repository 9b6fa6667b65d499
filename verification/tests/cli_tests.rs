use std::cell::RefCell;

use tagging::cli::{annotation_of, confirms, next_from_answer, next_tag, Cli, LinePrompt, Opt, Outcome};
use tagging::error::TaggingError;
use tagging::git::{GitClientIO, GitRepo};
use tagging::tag::{Position, Tag};

/// A store client whose listing is fixed and which records every written
/// tag name.
struct RecordingClient {
    listing: Result<String, TaggingError>,
    write_result: Result<(), TaggingError>,
    written: RefCell<Vec<String>>,
}

impl RecordingClient {
    fn with_listing(listing: &str) -> Self {
        Self {
            listing: Ok(listing.to_string()),
            write_result: Ok(()),
            written: RefCell::new(Vec::new()),
        }
    }

    fn unavailable() -> Self {
        Self {
            listing: Err(TaggingError::TagStoreUnavailable),
            write_result: Ok(()),
            written: RefCell::new(Vec::new()),
        }
    }
}

impl GitClientIO for RecordingClient {
    fn get_tags(&self, _prefix: &str) -> Result<String, TaggingError> {
        self.listing.clone()
    }

    fn get_log(&self, _tag: Option<&Tag>) -> Result<String, TaggingError> {
        Ok("latest commit".to_string())
    }

    fn add_tag(&self, tag: &Tag) -> Result<String, TaggingError> {
        self.write_result.clone()?;
        self.written.borrow_mut().push(tag.to_string());
        Ok(String::new())
    }
}

/// A store client that must never be asked anything.
struct ForbiddenClient;

impl GitClientIO for ForbiddenClient {
    fn get_tags(&self, _prefix: &str) -> Result<String, TaggingError> {
        panic!("the store was queried");
    }

    fn get_log(&self, _tag: Option<&Tag>) -> Result<String, TaggingError> {
        panic!("the store was queried");
    }

    fn add_tag(&self, _tag: &Tag) -> Result<String, TaggingError> {
        panic!("the store was written to");
    }
}

/// A prompt answering from a fixed script; it fails once the script runs
/// out.
struct ScriptedPrompt {
    answers: Vec<String>,
    next: usize,
}

impl ScriptedPrompt {
    fn new(answers: &[&str]) -> Self {
        Self { answers: answers.iter().map(|a| a.to_string()).collect(), next: 0 }
    }
}

impl LinePrompt for ScriptedPrompt {
    fn read_line(&mut self, _description: &str) -> Result<String, TaggingError> {
        if self.next < self.answers.len() {
            let answer = self.answers[self.next].clone();
            self.next += 1;
            Ok(answer)
        } else {
            Err(TaggingError::PromptUnavailable)
        }
    }

    fn show(&mut self, _text: &str) {}
}

fn opt(quiet: bool, inc_position: Option<Position>, prefix: &str) -> Opt {
    Opt { quiet, debug: false, inc_position, prefix: prefix.to_string() }
}

fn created_name(outcome: Outcome) -> String {
    match outcome {
        Outcome::Created(tag) => tag.to_string(),
        Outcome::Cancelled => panic!("the flow was cancelled"),
    }
}

#[test]
fn quiet_without_position_fails_before_any_store_access() {
    let mut cli = Cli::new(
        opt(true, None, ""),
        GitRepo::new(ForbiddenClient),
        ScriptedPrompt::new(&[]),
    );
    let r = cli.run();
    assert!(matches!(r, Err(TaggingError::MissingPosition)));
}

#[test]
fn quiet_with_no_prior_tags_seeds_minor_as_0_1_0() {
    let client = RecordingClient::with_listing("");
    let mut cli = Cli::new(
        opt(true, Some(Position::Minor), ""),
        GitRepo::new(client),
        ScriptedPrompt::new(&[]),
    );
    let outcome = cli.run().unwrap();
    assert_eq!(created_name(outcome), "0.1.0");
    assert_eq!(*cli.git.client.written.borrow(), vec!["0.1.0"]);
}

#[test]
fn quiet_seed_depends_on_position() {
    for (position, want) in [
        (Position::Major, "1.0.0"),
        (Position::Minor, "0.1.0"),
        (Position::Patch, "0.0.1"),
    ] {
        let client = RecordingClient::with_listing("");
        let mut cli = Cli::new(
            opt(true, Some(position), ""),
            GitRepo::new(client),
            ScriptedPrompt::new(&[]),
        );
        let outcome = cli.run().unwrap();
        assert_eq!(created_name(outcome), want);
    }
}

#[test]
fn quiet_with_prior_tag_bumps_the_newest() {
    let client = RecordingClient::with_listing("'2.3.4 1600000000'");
    let mut cli = Cli::new(
        opt(true, Some(Position::Major), ""),
        GitRepo::new(client),
        ScriptedPrompt::new(&[]),
    );
    let outcome = cli.run().unwrap();
    assert_eq!(created_name(outcome), "3.0.0");
    assert_eq!(*cli.git.client.written.borrow(), vec!["3.0.0"]);
}

#[test]
fn quiet_bumps_the_highest_not_the_first_listed() {
    let client = RecordingClient::with_listing(
        "'v0.9.0 1600000000'\n'v0.10.0 1600000001'\n'v0.2.1 1600000002'",
    );
    let mut cli = Cli::new(
        opt(true, Some(Position::Patch), "v"),
        GitRepo::new(client),
        ScriptedPrompt::new(&[]),
    );
    let outcome = cli.run().unwrap();
    assert_eq!(created_name(outcome), "v0.10.1");
}

#[test]
fn quiet_never_attaches_a_message() {
    let client = RecordingClient::with_listing("'1.0.0 1600000000'");
    let mut cli = Cli::new(
        opt(true, Some(Position::Patch), ""),
        GitRepo::new(client),
        ScriptedPrompt::new(&[]),
    );
    match cli.run().unwrap() {
        Outcome::Created(tag) => assert_eq!(tag.message, None),
        Outcome::Cancelled => panic!("the flow was cancelled"),
    }
}

#[test]
fn quiet_at_the_version_limit_fails_without_writing() {
    let client = RecordingClient::with_listing("'18446744073709551615.0.0 1600000000'");
    let mut cli = Cli::new(
        opt(true, Some(Position::Major), ""),
        GitRepo::new(client),
        ScriptedPrompt::new(&[]),
    );
    let r = cli.run();
    assert!(matches!(r, Err(TaggingError::VersionLimit)));
    assert!(cli.git.client.written.borrow().is_empty());
}

#[test]
fn unreachable_store_aborts_the_flow() {
    let mut cli = Cli::new(
        opt(true, Some(Position::Minor), ""),
        GitRepo::new(RecordingClient::unavailable()),
        ScriptedPrompt::new(&[]),
    );
    let r = cli.run();
    assert!(matches!(r, Err(TaggingError::TagStoreUnavailable)));
}

#[test]
fn rejected_write_is_surfaced() {
    let mut client = RecordingClient::with_listing("");
    client.write_result = Err(TaggingError::StoreWriteRejected);
    let mut cli = Cli::new(
        opt(true, Some(Position::Minor), ""),
        GitRepo::new(client),
        ScriptedPrompt::new(&[]),
    );
    let r = cli.run();
    assert!(matches!(r, Err(TaggingError::StoreWriteRejected)));
    assert!(cli.git.client.written.borrow().is_empty());
}

#[test]
fn interactive_bump_asks_for_a_position_until_valid() {
    let client = RecordingClient::with_listing("'v2.3.4 1600000000'");
    // An invalid token first, then a minor bump, no message, confirmed.
    let prompt = ScriptedPrompt::new(&["bogus", "m", "", "y"]);
    let mut cli = Cli::new(opt(false, None, "v"), GitRepo::new(client), prompt);
    let outcome = cli.run().unwrap();
    assert_eq!(created_name(outcome), "v2.4.0");
    assert_eq!(*cli.git.client.written.borrow(), vec!["v2.4.0"]);
}

#[test]
fn interactive_initial_tag_asks_until_it_parses() {
    let client = RecordingClient::with_listing("");
    let prompt = ScriptedPrompt::new(&["not-a-version", "1.0.0", "first release", "yes"]);
    let mut cli = Cli::new(opt(false, None, ""), GitRepo::new(client), prompt);
    let outcome = cli.run().unwrap();
    match outcome {
        Outcome::Created(tag) => {
            assert_eq!(tag.to_string(), "1.0.0");
            assert_eq!(tag.message, Some("first release".to_string()));
        },
        Outcome::Cancelled => panic!("the flow was cancelled"),
    }
}

#[test]
fn interactive_empty_message_means_none() {
    let client = RecordingClient::with_listing("'0.1.0 1600000000'");
    let prompt = ScriptedPrompt::new(&["p", "", "y"]);
    let mut cli = Cli::new(opt(false, None, ""), GitRepo::new(client), prompt);
    match cli.run().unwrap() {
        Outcome::Created(tag) => {
            assert_eq!(tag.to_string(), "0.1.1");
            assert_eq!(tag.message, None);
        },
        Outcome::Cancelled => panic!("the flow was cancelled"),
    }
}

#[test]
fn declining_confirmation_cancels_without_writing() {
    let client = RecordingClient::with_listing("'2.3.4 1600000000'");
    let prompt = ScriptedPrompt::new(&["m", "", "n"]);
    let mut cli = Cli::new(opt(false, None, ""), GitRepo::new(client), prompt);
    let outcome = cli.run().unwrap();
    assert!(matches!(outcome, Outcome::Cancelled));
    assert!(cli.git.client.written.borrow().is_empty());
}

#[test]
fn only_an_affirmative_prefix_confirms() {
    for (answer, confirmed) in [("y", true), ("yes", true), ("Y", false), ("", false), ("no", false)] {
        let client = RecordingClient::with_listing("'1.0.0 1600000000'");
        let prompt = ScriptedPrompt::new(&["p", "", answer]);
        let mut cli = Cli::new(opt(false, None, ""), GitRepo::new(client), prompt);
        let outcome = cli.run().unwrap();
        let written = !cli.git.client.written.borrow().is_empty();
        assert_eq!(written, confirmed, "answer {:?}", answer);
        assert_eq!(matches!(outcome, Outcome::Cancelled), !confirmed);
    }
}

#[test]
fn any_discovery_failure_surfaces_as_store_unavailable() {
    let mut client = RecordingClient::with_listing("");
    client.listing = Err(TaggingError::VersionFormat);
    let mut cli = Cli::new(
        opt(true, Some(Position::Minor), ""),
        GitRepo::new(client),
        ScriptedPrompt::new(&[]),
    );
    let r = cli.run();
    assert!(matches!(r, Err(TaggingError::TagStoreUnavailable)));
}

#[test]
fn any_write_failure_surfaces_as_write_rejection() {
    let mut client = RecordingClient::with_listing("");
    client.write_result = Err(TaggingError::VersionFormat);
    let mut cli = Cli::new(
        opt(true, Some(Position::Minor), ""),
        GitRepo::new(client),
        ScriptedPrompt::new(&[]),
    );
    let r = cli.run();
    assert!(matches!(r, Err(TaggingError::StoreWriteRejected)));
}

#[test]
fn interactive_word_tokens_are_case_insensitive() {
    let client = RecordingClient::with_listing("'2.3.4 1600000000'");
    let prompt = ScriptedPrompt::new(&["MAJOR", "", "y"]);
    let mut cli = Cli::new(opt(false, None, ""), GitRepo::new(client), prompt);
    let outcome = cli.run().unwrap();
    assert_eq!(created_name(outcome), "3.0.0");
}

#[test]
fn next_tag_seeds_an_empty_list() {
    let tags: Vec<Tag> = Vec::new();
    let t = next_tag(&tags, Position::Minor, &"v".to_string()).unwrap();
    assert_eq!(t.to_string(), "v0.1.0");
    assert_eq!(t.timestamp, None);
    assert_eq!(t.message, None);
}

#[test]
fn next_tag_bumps_the_head_of_a_nonempty_list() {
    let tags = vec![
        Tag::new("2.3.4", "v".to_string(), Some(7), None).unwrap(),
        Tag::new("1.0.0", "v".to_string(), Some(3), None).unwrap(),
    ];
    let t = next_tag(&tags, Position::Major, &"v".to_string()).unwrap();
    assert_eq!(t.to_string(), "v3.0.0");
}

#[test]
fn next_tag_refuses_a_bump_at_the_machine_limit() {
    let tags = vec![Tag::new("18446744073709551615.0.0", String::new(), None, None).unwrap()];
    let r = next_tag(&tags, Position::Major, &String::new());
    assert!(matches!(r, Err(TaggingError::VersionLimit)));
}

#[test]
fn next_from_answer_decides_one_bump_answer() {
    let base = Tag::new("1.4.7", "v".to_string(), Some(1), None).unwrap();
    assert_eq!(next_from_answer(&base, "m").unwrap().to_string(), "v1.5.0");
    assert_eq!(next_from_answer(&base, "MAJOR").unwrap().to_string(), "v2.0.0");
    assert!(matches!(next_from_answer(&base, "bogus"), Err(TaggingError::InvalidPosition)));
}

#[test]
fn confirms_accepts_only_an_affirmative_prefix() {
    assert!(confirms("y"));
    assert!(confirms("yes"));
    assert!(!confirms("Y"));
    assert!(!confirms(""));
    assert!(!confirms("no"));
}

#[test]
fn annotation_of_wraps_nonempty_answers() {
    assert_eq!(annotation_of(String::new()), None);
    assert_eq!(annotation_of("note".to_string()), Some("note".to_string()));
}

#[test]
fn an_exhausted_prompt_fails_the_flow() {
    let client = RecordingClient::with_listing("'1.0.0 1600000000'");
    let prompt = ScriptedPrompt::new(&[]);
    let mut cli = Cli::new(opt(false, None, ""), GitRepo::new(client), prompt);
    let r = cli.run();
    assert!(matches!(r, Err(TaggingError::PromptUnavailable)));
    assert!(cli.git.client.written.borrow().is_empty());
}
