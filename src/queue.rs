use vstd::prelude::*;

verus! {

/// The literal token that a template command holds where a value goes.
pub open spec fn placeholder() -> Seq<char> {
    seq!['{', '{', '}', '}']
}

/// `s` with each leftmost, non-overlapping occurrence of `pat` replaced by `to`.
pub open spec fn replace_all(s: Seq<char>, pat: Seq<char>, to: Seq<char>) -> Seq<char>
    decreases s.len(),
{
    if pat.len() == 0 || s.len() < pat.len() {
        s
    } else if s.subrange(0, pat.len() as int) == pat {
        to + replace_all(s.subrange(pat.len() as int, s.len() as int), pat, to)
    } else {
        seq![s[0]] + replace_all(s.subrange(1, s.len() as int), pat, to)
    }
}

/// Relies on str::replace: every non-overlapping match of `from`, found from
/// the left, is replaced by `to`.
#[verifier::external_body]
fn replace_str(s: &str, from: &str, to: &str) -> (r: String)
    requires
        from@.len() > 0,
    ensures
        r@ == replace_all(s@, from@, to@),
{
    s.replace(from, to)
}

/// `template` with its placeholders filled by `value`.
pub fn substitute(template: &str, value: &str) -> (r: String)
    ensures
        r@ == replace_all(template@, placeholder(), value@),
{
    let token: &str = "{{}}";
    proof {
        reveal_strlit("{{}}");
    }
    assert(token@ =~= placeholder());
    replace_str(template, token, value)
}

/// The character views of a sequence of strings.
pub open spec fn views(v: Seq<String>) -> Seq<Seq<char>> {
    v.map_values(|x: String| x@)
}

/// The pieces of `s` between newline characters, in order. A trailing
/// newline gives a trailing empty piece, and an empty text one empty piece.
pub open spec fn lines_of(s: Seq<char>) -> Seq<Seq<char>>
    decreases s.len(),
{
    if s.len() == 0 {
        seq![Seq::<char>::empty()]
    } else {
        let rest = lines_of(s.drop_first());
        if s[0] == '\n' {
            seq![Seq::<char>::empty()] + rest
        } else {
            rest.update(0, seq![s[0]] + rest[0])
        }
    }
}

/// Every template filled with one value, in template order.
pub open spec fn expand_for(templates: Seq<Seq<char>>, value: Seq<char>) -> Seq<Seq<char>> {
    templates.map_values(|t: Seq<char>| replace_all(t, placeholder(), value))
}

/// The full expansion: all templates for the first value, then all
/// templates for the second value, and so on.
pub open spec fn expand(templates: Seq<Seq<char>>, values: Seq<Seq<char>>) -> Seq<Seq<char>>
    decreases values.len(),
{
    if values.len() == 0 {
        Seq::empty()
    } else {
        expand(templates, values.drop_last()) + expand_for(templates, values.last())
    }
}

/// Relies on str::split with a char pattern: the pieces between the
/// separators, in order, each turned into an owned string.
#[verifier::external_body]
fn split_lines(s: &str) -> (r: Vec<String>)
    ensures
        views(r@) == lines_of(s@),
{
    s.split('\n').map(|x| x.to_string()).collect()
}

/// Expands every template against every value, values in the outer order.
pub fn build_with_args(commands: Vec<String>, args: Vec<String>) -> (r: Vec<String>)
    ensures
        views(r@) == expand(views(commands@), views(args@)),
{
    let mut command_list: Vec<String> = Vec::new();
    let ghost templates = views(commands@);
    let ghost values = views(args@);
    let mut i: usize = 0;
    while i < args.len()
        invariant
            i <= args.len(),
            templates == views(commands@),
            values == views(args@),
            views(command_list@) == expand(templates, values.take(i as int)),
        decreases args.len() - i,
    {
        let arg = &args[i];
        let ghost before = views(command_list@);
        let mut j: usize = 0;
        while j < commands.len()
            invariant
                i < args.len(),
                j <= commands.len(),
                templates == views(commands@),
                values == views(args@),
                arg@ == values[i as int],
                views(command_list@) == before + expand_for(templates, values[i as int]).take(j as int),
            decreases commands.len() - j,
        {
            let filled = substitute(commands[j].as_str(), arg.as_str());
            let ghost prev = command_list@;
            command_list.push(filled);
            assert(views(command_list@) =~= views(prev).push(filled@));
            assert(expand_for(templates, values[i as int]).take(j + 1) =~= expand_for(templates, values[i as int]).take(j as int).push(filled@));
            assert(views(command_list@) =~= before + expand_for(templates, values[i as int]).take(j + 1));
            j = j + 1;
        }
        assert(values.take(i + 1).drop_last() =~= values.take(i as int));
        assert(expand_for(templates, values[i as int]).take(j as int) =~= expand_for(templates, values[i as int]));
        i = i + 1;
    }
    assert(values.take(i as int) =~= values);
    command_list
}

/// What became of the argument file when the caller looked for it.
pub enum ArgFile {
    /// The path does not exist or is not a regular file.
    Missing,
    /// The file exists but could not be read.
    Unreadable,
    /// The file's text.
    Text(String),
}

/// Why no command queue could be built.
#[derive(Debug, PartialEq, Eq, Structural)]
pub enum QueueError {
    ArgFileNotFound,
    IOError,
}

/// Builds the commands to run: the templates unchanged without an argument
/// file, else their expansion against the file's lines.
pub fn build_command_queue(commands: Vec<String>, argfile: Option<ArgFile>) -> (r: Result<
    Vec<String>,
    QueueError,
>)
    ensures
        argfile.is_none() ==> r == Ok::<Vec<String>, QueueError>(commands),
        argfile matches Some(ArgFile::Missing) ==> r == Err::<Vec<String>, QueueError>(
            QueueError::ArgFileNotFound,
        ),
        argfile matches Some(ArgFile::Unreadable) ==> r == Err::<Vec<String>, QueueError>(
            QueueError::IOError,
        ),
        argfile matches Some(ArgFile::Text(t)) ==> r is Ok && views(r->Ok_0@) == expand(
            views(commands@),
            lines_of(t@),
        ),
{
    match argfile {
        None => Ok(commands),
        Some(ArgFile::Missing) => Err(QueueError::ArgFileNotFound),
        Some(ArgFile::Unreadable) => Err(QueueError::IOError),
        Some(ArgFile::Text(text)) => {
            let lines = split_lines(text.as_str());
            Ok(build_with_args(commands, lines))
        },
    }
}

} // verus!
