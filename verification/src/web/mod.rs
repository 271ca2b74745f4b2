pub mod request_parser;
