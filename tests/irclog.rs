use sup::irclog::{
    locate_standup, render_standup, rpos_str, write_last_standup, IrcLogLine, StandupBounds,
};
use sup::StandupError;

const SAMPLE_LOG: &str = "\
2020-06-10 10:32:39	john-a	blar blah blar
2020-06-10 10:33:52	john-b	:)
2020-06-10 10:34:21	tpreston	great
2020-06-10 10:34:22	tpreston	standup time!
2020-06-10 10:34:24	tpreston	who is attending?
2020-06-10 10:34:27	john-a	o/
2020-06-10 10:34:28	john-b	o/
2020-06-10 10:35:17	tpreston	order is me, john-a, john-b 
2020-06-10 10:35:29	tpreston	## Thomas Preston (tpreston)
2020-06-10 10:35:29	tpreston	* Done:
2020-06-10 10:35:29	tpreston	  - something
2020-06-10 10:35:29	tpreston	* Doing:
2020-06-10 10:35:29	tpreston	  - something else
2020-06-10 10:35:29	tpreston	* Next:
2020-06-10 10:35:29	tpreston	  - another thing
2020-06-10 10:35:29	tpreston	* Backlog:
2020-06-10 10:35:29	tpreston	  - some thing I'll get around to
2020-06-10 10:35:29	tpreston	## John Ayy (john-a)
2020-06-10 10:35:55	john-a	* Done
2020-06-10 10:35:55	john-a	  - A thing
2020-06-10 10:35:55	john-a	* Today
2020-06-10 10:35:55	john-a	  - This other thing
2020-06-10 10:35:58	john-a	## John Bee (john-b)
2020-06-10 10:36:02	john-b	* Done
2020-06-10 10:36:02	john-b	    - Created the thing
2020-06-10 10:36:02	john-b	    - Built another thing
2020-06-10 10:36:02	john-b	    - Reviewed thingy
2020-06-10 10:36:02	john-b	* Doing
2020-06-10 10:36:04	john-b	    - Add some notes
2020-06-10 10:36:06	john-b	    - Do a doo-hickey
2020-06-10 10:36:08	john-b	    - Create the merge foo
2020-06-10 10:36:10	john-b	# Discussion
2020-06-10 10:36:25	 *	john-a doesn't have much concrete to be working on
2020-06-10 10:36:41	john-a	Other than that, _o_
2020-06-10 10:37:52	john-b	_o_
2020-06-10 10:38:34	tpreston	if no points, closing standup in 5
2020-06-10 10:38:35	tpreston	4
2020-06-10 10:38:35	tpreston	3
2020-06-10 10:38:36	tpreston	2
2020-06-10 10:38:36	tpreston	1
2020-06-10 10:38:38	tpreston	standup ends
2020-06-10 10:38:40	tpreston	thanks all
2020-06-10 10:38:53	john-b	ta tpreston";

#[test]
fn test_irc_log_line() {
    let text = "2020-06-09 16:56:38	tpreston	foobar";
    let irc_log_line: IrcLogLine = text.parse().unwrap();
    assert_eq!(irc_log_line.datetime, "2020-06-09 16:56:38");
    assert_eq!(irc_log_line.username, "tpreston");
    assert_eq!(irc_log_line.content, "foobar");
    assert_eq!(irc_log_line.in_discussion, false);
}

#[test]
fn test_rpos_str() {
    let haystack = ["foo", "bar", "baz", "bar"];
    assert_eq!(rpos_str(&haystack, "foo").ok(), Some(0));
    assert_eq!(rpos_str(&haystack, "bar").ok(), Some(3));
    assert_eq!(rpos_str(&haystack, "baz").ok(), Some(2));
    assert!(rpos_str(&haystack, "bong").is_err());
}

// The block runs from the start marker through the end marker, so the end
// marker's line is the last line of the report.
#[test]
fn test_write_last_standup() {
    let expected_standup = "
## Thomas Preston (tpreston)
* Done:
  - something
* Doing:
  - something else
* Next:
  - another thing
* Backlog:
  - some thing I'll get around to

## John Ayy (john-a)
* Done
  - A thing
* Today
  - This other thing

## John Bee (john-b)
* Done
    - Created the thing
    - Built another thing
    - Reviewed thingy
* Doing
    - Add some notes
    - Do a doo-hickey
    - Create the merge foo

# Discussion
     *	john-a doesn't have much concrete to be working on
    john-a	Other than that, _o_
    john-b	_o_
    tpreston	if no points, closing standup in 5
    tpreston	4
    tpreston	3
    tpreston	2
    tpreston	1
    tpreston	standup ends
";
    let start = "## Thomas Preston (tpreston)";
    let discussion = "# Discussion";
    let end = "standup ends";
    let mut written_standup = String::new();

    let res = write_last_standup(SAMPLE_LOG, start, discussion, end, &mut written_standup);
    assert!(res.is_ok());
    assert_eq!(written_standup, expected_standup);
}

#[test]
fn parse_line_with_missing_fields() {
    let only_time: IrcLogLine = "12:00".parse().unwrap();
    assert_eq!(only_time.datetime, "12:00");
    assert_eq!(only_time.username, "");
    assert_eq!(only_time.content, "");
    let two: IrcLogLine = IrcLogLine::parse_line("12:00\tbob");
    assert_eq!(two.username, "bob");
    assert_eq!(two.content, "");
}

#[test]
fn parse_line_drops_extra_fields() {
    let line = IrcLogLine::parse_line("t\tbob\thello\tworld");
    assert_eq!(line.datetime, "t");
    assert_eq!(line.username, "bob");
    assert_eq!(line.content, "hello");
}

#[test]
fn render_styles() {
    let mut line = IrcLogLine::parse_line("t\tbob\t# Topic");
    assert_eq!(line.render(), "\n# Topic");
    line.in_discussion = true;
    assert_eq!(line.render(), "    bob\t# Topic");
    let plain = IrcLogLine::parse_line("t\tbob\tplain words");
    assert_eq!(plain.render(), "plain words");
}

#[test]
fn scenario_alice_bob() {
    let log = "T0\tcarol\tchatter\nT1\tjohn\t## Alice\nT1\tjohn\tdid things\nT2\talice\t# Discussion\nT2\tbob\ta point\nT3\tbob\tstandup ends\nT4\tcarol\tbye";
    let mut out = String::new();
    let res = write_last_standup(log, "## Alice", "# Discussion", "standup ends", &mut out);
    assert!(res.is_ok());
    assert_eq!(
        out,
        "\n## Alice\ndid things\n\n# Discussion\n    bob\ta point\n    bob\tstandup ends\n"
    );
}

#[test]
fn report_line_count_matches_block() {
    let lines: Vec<&str> = SAMPLE_LOG.lines().collect();
    let b = locate_standup(&lines, "## Thomas Preston (tpreston)", "# Discussion", "standup ends")
        .ok()
        .unwrap();
    assert_eq!((b.start, b.discussion, b.end), (8, 31, 40));
    let recs = render_standup(&lines, &b);
    assert_eq!(recs.len(), b.end - b.start + 1);
}

#[test]
fn render_standup_explicit_bounds() {
    let lines = ["a\tx\tstart", "b\ty\t# d", "c\tz\tend"];
    let b = StandupBounds { start: 0, discussion: 1, end: 2 };
    let recs = render_standup(&lines, &b);
    assert_eq!(recs, vec!["start".to_string(), "\n# d".to_string(), "    z\tend".to_string()]);
}

#[test]
fn writing_twice_gives_same_text() {
    let mut a = String::new();
    let mut b = String::new();
    let ra = write_last_standup(SAMPLE_LOG, "## Thomas", "# Discussion", "standup ends", &mut a);
    let rb = write_last_standup(SAMPLE_LOG, "## Thomas", "# Discussion", "standup ends", &mut b);
    assert!(ra.is_ok() && rb.is_ok());
    assert_eq!(a, b);
    assert!(!a.is_empty());
}

#[test]
fn end_before_discussion_is_invalid() {
    let log = "s\tu\tbegin\ns\tu\tends here\ns\tu\t# Discussion\ns\tu\tafter";
    let mut out = String::from("kept");
    let res = write_last_standup(log, "begin", "# Discussion", "ends here", &mut out);
    match res {
        Err(StandupError::IrcStandupPositionInvalid(a, b, c)) => assert_eq!((a, b, c), (0, 2, 1)),
        other => panic!("unexpected outcome {:?}", other),
    }
    assert_eq!(out, "kept");
}

#[test]
fn missing_discussion_marker() {
    let log = "s\tu\tbegin\ns\tu\tends here";
    let mut out = String::new();
    match write_last_standup(log, "begin", "# Discussion", "ends here", &mut out) {
        Err(StandupError::StringNotFound(m)) => assert_eq!(m, "# Discussion"),
        other => panic!("unexpected outcome {:?}", other),
    }
    assert!(out.is_empty());
}

#[test]
fn missing_start_marker_reported_first() {
    let log = "s\tu\tnothing here";
    let lines: Vec<&str> = log.lines().collect();
    match locate_standup(&lines, "begin", "# Discussion", "end") {
        Err(StandupError::StringNotFound(m)) => assert_eq!(m, "begin"),
        other => panic!("unexpected outcome {:?}", other),
    }
}

#[test]
fn markers_match_whole_line_and_crlf() {
    let log = "begin\tu\tx\r\nt\tu\t# Discussion\r\nt\tu\tmid\r\nt\tend\ty\r\n";
    let mut out = String::new();
    let res = write_last_standup(log, "begin", "# Discussion", "end", &mut out);
    assert!(res.is_ok());
    assert_eq!(out, "x\n\n# Discussion\n    u\tmid\n    end\ty\n");
}

#[test]
fn empty_log_reports_start_marker() {
    let mut out = String::new();
    match write_last_standup("", "a", "b", "c", &mut out) {
        Err(StandupError::StringNotFound(m)) => assert_eq!(m, "a"),
        other => panic!("unexpected outcome {:?}", other),
    }
}

#[test]
fn from_str_never_fails() {
    let no_tab: IrcLogLine = "just words".parse().unwrap();
    assert_eq!(no_tab.datetime, "just words");
    assert_eq!(no_tab.username, "");
    assert_eq!(no_tab.content, "");
    assert!(!no_tab.in_discussion);
    let empty: IrcLogLine = "".parse().unwrap();
    assert_eq!(empty.datetime, "");
}

#[test]
fn parsed_discussion_line_renders_tail() {
    let s = "t	bob	hello there";
    let mut line: IrcLogLine = s.parse().unwrap();
    line.in_discussion = true;
    assert_eq!(line.render(), format!("    {}", &s[s.find('\t').unwrap() + 1..]));
}

#[test]
fn report_newlines_count_records_and_headers() {
    let mut out = String::new();
    let res = write_last_standup(SAMPLE_LOG, "## Thomas Preston", "# Discussion", "standup ends", &mut out);
    assert!(res.is_ok());
    // 33 log lines from the start marker through the end marker, 4 headers.
    assert_eq!(out.matches('\n').count(), 33 + 4);
}
