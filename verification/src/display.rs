use vstd::prelude::*;
use vstd::string::*;

use crate::message::MessageToPrintOrigin;

verus! {

/// `s` right-aligned in a field of `width` characters, padded with spaces.
pub open spec fn pad_left(s: Seq<char>, width: nat) -> Seq<char> {
    if s.len() >= width {
        s
    } else {
        Seq::new((width - s.len()) as nat, |i: int| ' ') + s
    }
}

/// The tag that starts a line of output from `origin`.
pub open spec fn origin_tag(origin: MessageToPrintOrigin) -> Seq<char> {
    match origin {
        MessageToPrintOrigin::CustomThread(src) => "[ @"@ + pad_left(src@, 17) + " ]"@,
        MessageToPrintOrigin::GeneratorThread => "[ @GENERATOR_THREAD ]"@,
        MessageToPrintOrigin::QueryerThread => "[ @QUERYER_THREAD   ]"@,
        MessageToPrintOrigin::WriterThread => "[ @WRITER_THREAD    ]"@,
        MessageToPrintOrigin::DisplayThread => "[ @DISPLAY_THREAD   ]"@,
        MessageToPrintOrigin::MainThread => "[ @MAIN_THREAD      ]"@,
    }
}

/// The line printed for `msg` from `origin`: the origin's tag, then the
/// message.
pub fn display_line(origin: &MessageToPrintOrigin, msg: &str) -> (line: String)
    ensures
        line@ == origin_tag(*origin) + msg@,
{
    let mut line = match origin {
        MessageToPrintOrigin::CustomThread(src) => {
            let mut tag = String::from_str("[ @");
            let n = src.as_str().unicode_len();
            let ghost start = tag@;
            let mut k: usize = n;
            proof {
                reveal_strlit(" ");
            }
            while k < 17
                invariant
                    n == src@.len(),
                    n <= k <= 17 || (n > 17 && k == n),
                    tag@ == start + Seq::new((k - n) as nat, |i: int| ' '),
                    " "@ == seq![' '],
                decreases 17 - k,
            {
                tag.append(" ");
                k = k + 1;
                assert(tag@ =~= start + Seq::new((k - n) as nat, |i: int| ' '));
            }
            tag.append(src.as_str());
            tag.append(" ]");
            assert(tag@ =~= "[ @"@ + pad_left(src@, 17) + " ]"@);
            tag
        },
        MessageToPrintOrigin::GeneratorThread => String::from_str("[ @GENERATOR_THREAD ]"),
        MessageToPrintOrigin::QueryerThread => String::from_str("[ @QUERYER_THREAD   ]"),
        MessageToPrintOrigin::WriterThread => String::from_str("[ @WRITER_THREAD    ]"),
        MessageToPrintOrigin::DisplayThread => String::from_str("[ @DISPLAY_THREAD   ]"),
        MessageToPrintOrigin::MainThread => String::from_str("[ @MAIN_THREAD      ]"),
    };
    line.append(msg);
    line
}

/// The name of the thread a line comes from, as its tag spells it: the
/// given name for a custom thread.
pub open spec fn thread_name(origin: MessageToPrintOrigin) -> Seq<char> {
    match origin {
        MessageToPrintOrigin::CustomThread(src) => src@,
        MessageToPrintOrigin::GeneratorThread => "GENERATOR_THREAD"@,
        MessageToPrintOrigin::QueryerThread => "QUERYER_THREAD"@,
        MessageToPrintOrigin::WriterThread => "WRITER_THREAD"@,
        MessageToPrintOrigin::DisplayThread => "DISPLAY_THREAD"@,
        MessageToPrintOrigin::MainThread => "MAIN_THREAD"@,
    }
}

/// The tag of a line names the thread it comes from: for each of the
/// program's own threads it is `[ @`, the thread's name, spaces up to 17
/// characters and `]`; for a custom thread, `[ @`, its name right-aligned
/// in 17 characters and ` ]`, so that the name ends the tag.
pub proof fn law_tag_names_origin(origin: MessageToPrintOrigin)
    ensures
        origin_tag(origin).len() >= 21,
        origin_tag(origin).take(3) == "[ @"@,
        !(origin is CustomThread) ==> origin_tag(origin).len() == 21 && thread_name(origin).len()
            <= 17 && origin_tag(origin).subrange(3, 3 + thread_name(origin).len() as int) == thread_name(
            origin,
        ) && (forall|i: int|
            3 + thread_name(origin).len() <= i < 20 ==> #[trigger] origin_tag(origin)[i] == ' ')
            && origin_tag(origin)[20] == ']',
        origin is CustomThread ==> origin_tag(origin).subrange(
            origin_tag(origin).len() - 2 - thread_name(origin).len(),
            origin_tag(origin).len() - 2,
        ) == thread_name(origin) && origin_tag(origin).len() >= 22,
{
    reveal_strlit("[ @");
    reveal_strlit(" ]");
    reveal_strlit("[ @GENERATOR_THREAD ]");
    reveal_strlit("[ @QUERYER_THREAD   ]");
    reveal_strlit("[ @WRITER_THREAD    ]");
    reveal_strlit("[ @DISPLAY_THREAD   ]");
    reveal_strlit("[ @MAIN_THREAD      ]");
    reveal_strlit("GENERATOR_THREAD");
    reveal_strlit("QUERYER_THREAD");
    reveal_strlit("WRITER_THREAD");
    reveal_strlit("DISPLAY_THREAD");
    reveal_strlit("MAIN_THREAD");
    let t = origin_tag(origin);
    let n = thread_name(origin);
    if let MessageToPrintOrigin::CustomThread(src) = origin {
        let p = pad_left(src@, 17);
        assert(t =~= "[ @"@ + p + " ]"@);
        assert(t.take(3) =~= "[ @"@);
        assert(p.subrange(p.len() - n.len(), p.len() as int) =~= n);
        assert(t.subrange(t.len() - 2 - n.len(), t.len() - 2) =~= n);
    } else {
        assert(t.take(3) =~= "[ @"@);
        assert(t.subrange(3, 3 + n.len() as int) =~= n);
    }
}

/// Different threads get different tags: no two of the program's own
/// threads share one, and no custom thread's tag is one of theirs.
pub proof fn law_origin_tags_distinct(a: MessageToPrintOrigin, b: MessageToPrintOrigin)
    requires
        !(a is CustomThread && b is CustomThread),
        origin_tag(a) == origin_tag(b),
    ensures
        a == b,
{
    law_tag_names_origin(a);
    law_tag_names_origin(b);
    reveal_strlit("GENERATOR_THREAD");
    reveal_strlit("QUERYER_THREAD");
    reveal_strlit("WRITER_THREAD");
    reveal_strlit("DISPLAY_THREAD");
    reveal_strlit("MAIN_THREAD");
    let t = origin_tag(a);
    assert(t.subrange(3, 3 + thread_name(a).len() as int)[0] == t[3]);
    assert(t.subrange(3, 3 + thread_name(b).len() as int)[0] == t[3]);
}

} // verus!
