pub mod stomp;
