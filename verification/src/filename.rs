//! The names of the files in a database directory.

use vstd::prelude::*;
use vstd::string::StringExecFns;

verus! {

/// The kinds of file in a database directory.
#[derive(Debug, Clone, Copy, PartialEq, Eq, Structural)]
pub enum FileType {
    LogFile,
    DBLockFile,
    TableFile,
    DescriptorFile,
    CurrentFile,
    TempFile,
    InfoLogFile,
}

/// The character of the decimal digit `d`.
pub open spec fn digit_char(d: nat) -> char
    recommends
        d < 10,
{
    if d == 0 {
        '0'
    } else if d == 1 {
        '1'
    } else if d == 2 {
        '2'
    } else if d == 3 {
        '3'
    } else if d == 4 {
        '4'
    } else if d == 5 {
        '5'
    } else if d == 6 {
        '6'
    } else if d == 7 {
        '7'
    } else if d == 8 {
        '8'
    } else {
        '9'
    }
}

/// `n` in decimal, without leading zeros.
pub open spec fn decimal(n: nat) -> Seq<char>
    decreases n,
{
    if n < 10 {
        seq![digit_char(n)]
    } else {
        decimal(n / 10).push(digit_char(n % 10))
    }
}

/// `n` in decimal, with zeros in front where it has fewer than six digits.
pub open spec fn six_digits(n: nat) -> Seq<char> {
    let digits = decimal(n);
    if digits.len() >= 6 {
        digits
    } else {
        Seq::new((6 - digits.len()) as nat, |i: int| '0') + digits
    }
}

/// `path/NNNNNN.suffix`.
pub open spec fn spec_make_file_name(path: Seq<char>, number: u64, suffix: Seq<char>) -> Seq<
    char,
> {
    path + seq!['/'] + six_digits(number as nat) + seq!['.'] + suffix
}

/// Formats `number` with `{:06}`: in decimal, padded with zeros to six
/// digits, and in full where it has more.
#[verifier::external_body]
fn format_number(number: u64) -> (s: String)
    ensures
        s@ == six_digits(number as nat),
{
    format!("{:06}", number)
}

/// `path/NNNNNN.suffix`, the number in six digits or more.
pub fn make_file_name(path: &str, number: u64, suffix: &str) -> (name: String)
    ensures
        name@ == spec_make_file_name(path@, number, suffix@),
{
    let mut name = String::from_str(path);
    name.append("/");
    let digits = format_number(number);
    name.append(digits.as_str());
    name.append(".");
    name.append(suffix);
    proof {
        reveal_strlit("/");
        reveal_strlit(".");
        assert("/"@ =~= seq!['/']);
        assert("."@ =~= seq!['.']);
    }
    name
}

/// The name of the log file with the given number.
pub fn log_file_name(path: &str, number: u64) -> (name: Box<String>)
    requires
        number > 0,
    ensures
        name@ == spec_make_file_name(path@, number, "log"@),
{
    Box::new(make_file_name(path, number, "log"))
}

/// The name of the lock file.
pub fn lock_file_name(dbname: &str) -> (name: String)
    ensures
        name@ == dbname@ + "/LOCK"@,
{
    file_name(dbname, "/LOCK")
}

/// The name of the file that names the current manifest.
pub fn current_file_name(dbname: &str) -> (name: String)
    ensures
        name@ == dbname@ + "/CURRENT"@,
{
    file_name(dbname, "/CURRENT")
}

/// The base name of the manifest with the given number.
pub open spec fn spec_descriptor_base_name(number: u64) -> Seq<char> {
    "MANIFEST-"@ + six_digits(number as nat)
}

/// The base name of the manifest with the given number:
/// `MANIFEST-NNNNNN`.
pub fn descriptor_base_name(number: u64) -> (name: String)
    ensures
        name@ == spec_descriptor_base_name(number),
{
    let mut name = String::from_str("MANIFEST-");
    let digits = format_number(number);
    name.append(digits.as_str());
    name
}

/// What the file that names the current manifest holds when the manifest
/// has the given number: the manifest's base name and a newline.
pub fn current_file_contents(number: u64) -> (contents: String)
    ensures
        contents@ == spec_descriptor_base_name(number).push('\n'),
{
    let mut contents = descriptor_base_name(number);
    contents.append("\n");
    proof {
        reveal_strlit("\n");
        assert("\n"@ =~= seq!['\n']);
        assert(contents@ =~= spec_descriptor_base_name(number).push('\n'));
    }
    contents
}

/// The name of the manifest with the given number:
/// `dbname/MANIFEST-NNNNNN`.
pub fn descriptor_file_name(dbname: &str, number: u64) -> (name: String)
    ensures
        name@ == dbname@ + seq!['/'] + spec_descriptor_base_name(number),
{
    let mut name = String::from_str(dbname);
    name.append("/");
    let base = descriptor_base_name(number);
    name.append(base.as_str());
    proof {
        reveal_strlit("/");
        assert("/"@ =~= seq!['/']);
    }
    name
}

/// The name of the scratch file with the given number.
pub fn temp_file_name(dbname: &str, number: u64) -> (name: String)
    ensures
        name@ == spec_make_file_name(dbname@, number, "dbtmp"@),
{
    make_file_name(dbname, number, "dbtmp")
}

/// `dbname` followed by `name`.
pub fn file_name(dbname: &str, name: &str) -> (fname: String)
    ensures
        fname@ == dbname@ + name@,
{
    let mut fname = String::from_str(dbname);
    fname.append(name);
    fname
}

} // verus!
