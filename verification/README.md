# courier

A terminal browser for the local message store that names conversations
after address-book contacts.

- `src/` is the verified library:
  - `keys.rs`: lookup keys of chat identifiers (phone numbers in several
    digit forms, e-mail addresses trimmed and lower-cased);
  - `contacts.rs`: the contact table, filled from address-book rows, and
    lookups in it;
  - `chatdb.rs`: chats folded into one summary per contact and sorted;
  - `app_state.rs`: the browser's selection and the figures it shows;
  - `text.rs`: character-level helpers and the std string calls they rest on.
- `app/` reads the address books and the message store, and draws the
  terminal.
