//! The arguments of the program.

use crate::order;
use crate::seqs;
use vstd::prelude::*;
use vstd::string::*;

verus! {

/// What the program is told: its address, the directory to serve and the
/// multicast group to answer in.
pub struct Args {
    pub local_ip: String,
    pub dir_path: String,
    pub multicast_ip: String,
}

/// How the program is called.
pub open spec fn usage(program: Seq<char>) -> Seq<char> {
    "Usage: "@ + program + " <LOCAL_IP> <MEDIA_DIR_PATH> <MULTICAST_IP>"@
}

/// What arguments say, the name of the program first: the address, the
/// directory and the multicast group.
pub open spec fn told(args: Seq<Seq<char>>) -> Option<(Seq<char>, Seq<char>, Seq<char>)> {
    if args.len() == 4 {
        Some((args[1], args[2], args[3]))
    } else {
        None
    }
}

/// Reads the arguments, the name of the program first. There must be three
/// behind it; else the message says how the program is called.
pub fn parse_args(args: &Vec<String>) -> (r: Result<Args, String>)
    requires
        args@.len() > 0,
    ensures
        match r {
            Ok(read) => {
                &&& args@.len() == 4
                &&& read.local_ip@ == args@[1]@
                &&& read.dir_path@ == args@[2]@
                &&& read.multicast_ip@ == args@[3]@
                &&& told(order::texts(args@)) == Some(
                    (read.local_ip@, read.dir_path@, read.multicast_ip@),
                )
            },
            Err(message) => args@.len() != 4 && told(order::texts(args@)) is None && message@
                == usage(args@[0]@),
        },
{
    if args.len() != 4 {
        let mut message = "Usage: ".to_owned();
        message.push_str(args[0].as_str());
        message.push_str(" <LOCAL_IP> <MEDIA_DIR_PATH> <MULTICAST_IP>");
        return Err(message);
    }
    Ok(
        Args {
            local_ip: args[1].clone(),
            dir_path: args[2].clone(),
            multicast_ip: args[3].clone(),
        },
    )
}

/// The program is told its address, the directory and the multicast group, in
/// this order, and nothing else; with fewer or more arguments it is told
/// nothing.
pub proof fn law_arguments_are_taken_in_order(
    program: Seq<char>,
    local_ip: Seq<char>,
    dir_path: Seq<char>,
    multicast_ip: Seq<char>,
    args: Seq<Seq<char>>,
)
    ensures
        told(seq![program, local_ip, dir_path, multicast_ip]) == Some(
            (local_ip, dir_path, multicast_ip),
        ),
        told(args) is Some <==> args.len() == 4,
{
}

/// The message names the program as it was called, and every argument that it
/// wants.
pub proof fn law_usage_names_the_program(program: Seq<char>, other: Seq<char>)
    ensures
        seqs::starts_with(usage(program), "Usage: "@ + program),
        seqs::ends_with(usage(program), " <LOCAL_IP> <MEDIA_DIR_PATH> <MULTICAST_IP>"@),
        usage(program) == usage(other) ==> program == other,
{
    let head = "Usage: "@;
    let tail = " <LOCAL_IP> <MEDIA_DIR_PATH> <MULTICAST_IP>"@;
    let a = usage(program);
    assert(a.subrange(0, (head + program).len() as int) =~= head + program);
    assert(a.subrange(a.len() - tail.len(), a.len() as int) =~= tail);
    let b = usage(other);
    assert(a.subrange(head.len() as int, a.len() - tail.len()) =~= program);
    assert(b.subrange(head.len() as int, b.len() - tail.len()) =~= other);
}

} // verus!
