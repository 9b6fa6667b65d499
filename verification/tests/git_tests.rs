use tagging::error::TaggingError;
use tagging::git::{parse_tags, GitClientIO, GitRepo, GitRepoIO};
use tagging::tag::Tag;

struct MockGitClient {
    output: String,
}

impl MockGitClient {
    fn new(output: &str) -> Self {
        Self { output: output.to_string() }
    }
}

impl GitClientIO for MockGitClient {
    fn get_tags(&self, _prefix: &str) -> Result<String, TaggingError> {
        Ok(self.output.to_string())
    }

    fn get_log(&self, _tag: Option<&Tag>) -> Result<String, TaggingError> {
        Ok(self.output.to_string())
    }

    fn add_tag(&self, _tag: &Tag) -> Result<String, TaggingError> {
        Ok(self.output.to_string())
    }
}

fn names(tags: &[Tag]) -> Vec<String> {
    tags.iter().map(|t| t.to_string()).collect()
}

#[test]
fn test_get_tags_none() {
    let mock = MockGitClient::new("");
    let mut git = GitRepo::new(mock);
    let tags = git.get_tags("").unwrap();
    assert_eq!(tags.len(), 0);
}

#[test]
fn test_get_tags_non_prefix() {
    let output = "
    '1.0.0 1600000000'
    '1.1.0 1600000000'
    '1.0.1 1600000000'
    ";
    let mock = MockGitClient::new(output);
    let mut git = GitRepo::new(mock);
    let tags = git.get_tags("").unwrap();
    assert_eq!(tags.len(), 3);
    let tags: Vec<String> = tags.iter().map(|t| t.to_string()).collect();
    assert_eq!(tags, vec!["1.1.0", "1.0.1", "1.0.0",]);
}

#[test]
fn test_get_tags_with_prefix() {
    let output = "
    'v1.0.0 1600000000'
    'v1.1.0 1600000000'
    '1.0.1 1600000000'
    ";
    let mock = MockGitClient::new(output);
    let mut git = GitRepo::new(mock);
    let tags = git.get_tags("v").unwrap();
    assert_eq!(tags.len(), 2);
    let tags: Vec<String> = tags.iter().map(|t| t.to_string()).collect();
    assert_eq!(tags, vec!["v1.1.0", "v1.0.0"]);
}

#[test]
fn git_tests_test_get_tags_none() {
    let mock = MockGitClient::new("");
    let mut git = GitRepo::new(mock);
    let tags = git.get_tags("").unwrap();
    assert_eq!(tags.len(), 0);
}

#[test]
fn git_tests_test_get_tags_non_prefix() {
    let output = "
    '1.0.0 1600000000'
    '1.1.0 1600000000'
    '1.0.1 1600000000'
    ";
    let mock = MockGitClient::new(output);
    let mut git = GitRepo::new(mock);
    let tags = git.get_tags("").unwrap();
    assert_eq!(tags.len(), 3);
    let tags: Vec<String> = tags.iter().map(|t| t.to_string()).collect();
    assert_eq!(tags, vec!["1.1.0", "1.0.1", "1.0.0",]);
}

#[test]
fn git_tests_test_get_tags_with_prefix() {
    let output = "
    'v1.0.0 1600000000'
    'v1.1.0 1600000000'
    '1.0.1 1600000000'
    ";
    let mock = MockGitClient::new(output);
    let mut git = GitRepo::new(mock);
    let tags = git.get_tags("v").unwrap();
    assert_eq!(tags.len(), 2);
    let tags: Vec<String> = tags.iter().map(|t| t.to_string()).collect();
    assert_eq!(tags, vec!["v1.1.0", "v1.0.0"]);
}

#[test]
fn discovery_sorts_descending() {
    let output = "'1.0.0 1600000000'\n'1.1.0 1600000001'\n'1.0.1 1600000002'";
    let tags = parse_tags(output, "");
    assert_eq!(names(&tags), vec!["1.1.0", "1.0.1", "1.0.0"]);
}

#[test]
fn discovery_empty_output_is_empty_not_an_error() {
    let tags = parse_tags("", "");
    assert_eq!(tags.len(), 0);
}

#[test]
fn discovery_keeps_timestamps() {
    let tags = parse_tags("'2.0.0 1600000000'", "");
    assert_eq!(tags.len(), 1);
    assert_eq!(tags[0].timestamp, Some(1600000000));
    assert_eq!(tags[0].message, None);
}

#[test]
fn discovery_unparseable_timestamp_is_absent() {
    let tags = parse_tags("'2.0.0 later'", "");
    assert_eq!(tags.len(), 1);
    assert_eq!(tags[0].timestamp, None);
}

#[test]
fn discovery_skips_malformed_lines() {
    let output = "random noise\n'not-a-version 1600000000'\n'3.1.4 1600000000'\n'9' '8'";
    let tags = parse_tags(output, "");
    assert_eq!(names(&tags), vec!["3.1.4"]);
}

#[test]
fn discovery_accepts_unquoted_lines() {
    let tags = parse_tags("2.5.0 1600000000", "");
    assert_eq!(names(&tags), vec!["2.5.0"]);
}

#[test]
fn discovery_keeps_duplicate_versions() {
    let output = "'1.2.3 1600000000'\n'1.2.3 1600000001'";
    let tags = parse_tags(output, "");
    assert_eq!(names(&tags), vec!["1.2.3", "1.2.3"]);
}

#[test]
fn discovery_prefix_is_literal() {
    let output = "'app-1.0.0 1600000000'\n'lib-2.0.0 1600000000'";
    let tags = parse_tags(output, "app-");
    assert_eq!(names(&tags), vec!["app-1.0.0"]);
}

#[test]
fn discovery_prefix_special_characters_are_literal() {
    // A prefix is a literal namespace, never a pattern: the dot must not
    // match an arbitrary character.
    let output = "'v.1.0.0 1600000000'\n'vX1.0.0 1600000000'";
    let tags = parse_tags(output, "v.");
    assert_eq!(names(&tags), vec!["v.1.0.0"]);
}

#[test]
fn discovery_rejects_leading_zero_components() {
    let tags = parse_tags("'1.02.3 1600000000'", "");
    assert_eq!(tags.len(), 0);
}

#[test]
fn discovery_orders_by_numeric_value_not_text() {
    let output = "'0.9.0 1600000000'\n'0.10.0 1600000000'\n'0.2.1 1600000000'";
    let tags = parse_tags(output, "");
    assert_eq!(names(&tags), vec!["0.10.0", "0.9.0", "0.2.1"]);
}
