use preproc::process::{CommentParser, IncludePoint, Source};

#[test]
fn fetch_filenames() {
    let filestr = "//&include <custom_file.c>
// This is a normal comment
#include <stdio.h>
//&include <myfile.txt>

int main() {
    printf(\"Hello World!\\n\");
    return 0;
}";
    let source = Source::from_str(filestr);
    let pp = source.process::<CommentParser>(&"//".into()).expect("file is correct");
    let files = pp.get_include_points();

    assert_eq!(files.len(), 2);
    assert_eq!(files[0], IncludePoint::Global(0, "custom_file.c"));
    assert_eq!(files[1], IncludePoint::Global(3, "myfile.txt"));

    let other_file = "# This is a python file
from sys import argv

# the below file imports some file
#&include <other_file.py>

if __name__ == \"__main__\":
    print(*argv)
    other_function()
    raise SystemExit()
";
    let pp2 = Source::from_str(other_file).process::<CommentParser>(&"#".into()).expect(
        "file is correct",
    );
    let files = pp2.get_include_points();

    assert_eq!(files.len(), 1);
    assert_eq!(files[0], IncludePoint::Global(4, "other_file.py"));
}

#[test]
fn expect_error() {
    let wrong_file = "//&wrong <not read>";

    let source1 = Source::from_str(wrong_file);
    let pp1_error = source1.process::<CommentParser>(&"//".into()).expect_err(
        "file shouldn't parse",
    );
    assert_eq!(pp1_error, "line 0: invalid preproc statement `wrong <not read>`");
}

#[test]
fn local_and_spacing_forms() {
    let text = "//&include \"near.h\"
//& include <far.h>
//&include<tight.h>";
    let source = Source::from_str(text);
    let pp = source.process::<CommentParser>(&"//".into()).expect("file is correct");
    let files = pp.get_include_points();
    assert_eq!(files.len(), 3);
    assert_eq!(files[0], IncludePoint::Local(0, "near.h"));
    assert_eq!(files[1], IncludePoint::Global(1, "far.h"));
    assert_eq!(files[2], IncludePoint::Global(2, "tight.h"));
}

#[test]
fn bad_argument_message() {
    let text = "//&include stray.h";
    let source = Source::from_str(text);
    let err = source.process::<CommentParser>(&"//".into()).expect_err("argument is malformed");
    assert_eq!(err, "line 0: invalid include statement `include stray.h`");
}

#[test]
fn error_line_is_counted_in_decimal() {
    let mut text = String::new();
    for _ in 0..12 {
        text.push_str("plain line\n");
    }
    text.push_str("//&wrong x");
    let source = Source::from_str(text.as_str());
    let err = source.process::<CommentParser>(&"//".into()).expect_err("directive is malformed");
    assert_eq!(err, "line 12: invalid preproc statement `wrong x`");
}
