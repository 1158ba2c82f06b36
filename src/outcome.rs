use vstd::prelude::*;
use vstd::string::StringExecFns;

verus! {

/// Relies on rand::random: it returns a value drawn from the thread-local
/// generator, of which nothing can be promised.
pub assume_specification<T>[ rand::random::<T> ]() -> (r: T)
    where
        rand::distributions::Standard: rand::distributions::Distribution<T>,
;

/// The message of a failed draw.
pub open spec fn failure_message() -> Seq<char> {
    "SYSTEM FAILURE"@
}

/// The result of a risky operation, given the value it produced, or `None`
/// where it failed.
pub fn dangerous_outcome(drawn: Option<u32>) -> (r: Result<u32, String>)
    ensures
        drawn matches Some(v) ==> r == Ok::<u32, String>(v),
        drawn is None ==> r is Err && r->Err_0@ == failure_message(),
{
    match drawn {
        Some(v) => Ok(v),
        None => Err(<String as StringExecFns>::from_str("SYSTEM FAILURE")),
    }
}

/// A risky operation that fails at random; on success its value is random
/// too, and it is drawn only then.
pub fn do_something_dangerous() -> (r: Result<u32, String>)
    ensures
        r is Ok || r->Err_0@ == failure_message(),
{
    let success: bool = rand::random();
    let drawn: Option<u32> = if success {
        Some(rand::random())
    } else {
        None
    };
    dangerous_outcome(drawn)
}

} // verus!
