use vstd::prelude::*;

use vstd::string::StringExecFns;

use crate::decimal::{decimal_text, digits, integer_text, Decimal, DecimalModel};

verus! {

/// One execution between a buy order and a sell order.
#[derive(Debug, PartialEq, Eq)]
pub struct Trade {
    pub buy_order_id: i32,
    pub sell_order_id: i32,
    pub price: Decimal,
    pub qty: Decimal,
    pub timestamp: i64,
}

pub ghost struct TradeModel {
    pub buy_order_id: i32,
    pub sell_order_id: i32,
    pub price: DecimalModel,
    pub qty: DecimalModel,
    pub timestamp: i64,
}

/// The decimal digit `d` as a string of one character.
fn digit_str(d: u64) -> (s: &'static str)
    requires
        d < 10,
    ensures
        s@ == seq![((48 + d) as u8) as char],
{
    match d {
        0 => {
            proof {
                reveal_strlit("0");
            }
            "0"
        },
        1 => {
            proof {
                reveal_strlit("1");
            }
            "1"
        },
        2 => {
            proof {
                reveal_strlit("2");
            }
            "2"
        },
        3 => {
            proof {
                reveal_strlit("3");
            }
            "3"
        },
        4 => {
            proof {
                reveal_strlit("4");
            }
            "4"
        },
        5 => {
            proof {
                reveal_strlit("5");
            }
            "5"
        },
        6 => {
            proof {
                reveal_strlit("6");
            }
            "6"
        },
        7 => {
            proof {
                reveal_strlit("7");
            }
            "7"
        },
        8 => {
            proof {
                reveal_strlit("8");
            }
            "8"
        },
        _ => {
            proof {
                reveal_strlit("9");
            }
            "9"
        },
    }
}

/// The decimal digits of `n`, most significant first; none for zero.
fn write_digits(n: u64) -> (s: String)
    ensures
        s@ == digits(n as nat),
    decreases n,
{
    if n == 0 {
        proof {
            reveal_strlit("");
        }
        String::from_str("")
    } else {
        let mut s = write_digits(n / 10);
        s.append(digit_str(n % 10));
        proof {
            assert(digits(n as nat) == digits((n / 10) as nat) + seq![((48 + n % 10) as u8) as char]);
        }
        s
    }
}

/// An integer written out: an optional minus sign and its digits.
fn display_integer(n: i64) -> (s: String)
    ensures
        s@ == integer_text(n as int),
{
    if n == 0 {
        proof {
            reveal_strlit("0");
        }
        String::from_str("0")
    } else if n < 0 {
        let magnitude: u64 = (-(n as i128)) as u64;
        proof {
            reveal_strlit("-");
        }
        let mut s = String::from_str("-");
        s.append(write_digits(magnitude).as_str());
        s
    } else {
        write_digits(n as u64)
    }
}

/// The line that records a trade in the execution log: buy id, sell id, price,
/// quantity and timestamp, separated by commas.
pub open spec fn log_line_text(t: TradeModel) -> Seq<char> {
    integer_text(t.buy_order_id as int) + seq![','] + integer_text(t.sell_order_id as int) + seq![',']
        + decimal_text(t.price) + seq![','] + decimal_text(t.qty) + seq![','] + integer_text(
        t.timestamp as int,
    ) + seq!['\n']
}

impl Trade {
    /// The line that records this trade in the execution log, ending in a newline.
    pub fn log_line(&self) -> (line: String)
        ensures
            line@ == log_line_text(self@),
    {
        let comma = ",";
        let newline = "\n";
        proof {
            reveal_strlit(",");
            reveal_strlit("\n");
        }
        let mut line = display_integer(self.buy_order_id as i64);
        line.append(comma);
        line.append(display_integer(self.sell_order_id as i64).as_str());
        line.append(comma);
        line.append(self.price.to_text().as_str());
        line.append(comma);
        line.append(self.qty.to_text().as_str());
        line.append(comma);
        line.append(display_integer(self.timestamp).as_str());
        line.append(newline);
        proof {
            assert(line@ =~= log_line_text(self@));
        }
        line
    }
}

impl View for Trade {
    type V = TradeModel;

    open spec fn view(&self) -> TradeModel {
        TradeModel {
            buy_order_id: self.buy_order_id,
            sell_order_id: self.sell_order_id,
            price: self.price@,
            qty: self.qty@,
            timestamp: self.timestamp,
        }
    }
}

} // verus!
