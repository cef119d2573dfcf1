use fox_reader::blocks::{convert_blocks_into_reading_block, split_text_into_block};

#[test]
fn test_convert_blocks_into_reading_block_with_whitespace() {
    let test_text = "When Mr. Bilbo Baggins of Bag End announced that he would shortly be
celebrating his eleventy-first birthday with a party of special
magnificence, there was much talk and excitement in Hobbiton.
Bilbo was very rich and very peculiar, and had been the
wonder of the Shire for sixty years, ever since his remarkable
disappearance and unexpected return. The riches he had brought back
from his travels had now become a local legend, and it was popularly
believed, whatever the old folk might say, that the Hill at Bag End
was full of tunnels stuffed with treasure. And if that was not enough
for fame, there was also his prolonged vigour to marvel at. Time wore
on, but it seemed to have little effect on Mr. Baggins. At ninety he
was much the same as at fifty.";
    let reading_blocks = convert_blocks_into_reading_block(test_text, 150);

    assert_eq!(reading_blocks.len(), 5);

    assert_eq!(reading_blocks[0].start_offset, 0);
    assert_eq!(reading_blocks[0].end_offset, 194);

    assert_eq!(reading_blocks[1].start_offset, 194);
    assert_eq!(reading_blocks[1].end_offset, 350);

    assert_eq!(reading_blocks[2].start_offset, 350);
    assert_eq!(reading_blocks[2].end_offset, 561);

    assert_eq!(reading_blocks[3].start_offset, 561);
    assert_eq!(reading_blocks[3].end_offset, 714);

    assert_eq!(reading_blocks[4].start_offset, 714);
    assert_eq!(reading_blocks[4].end_offset, 758);
}

#[test]
fn test_split_text_into_reading_blocks() {
    let test_text = "When Mr. Bilbo Baggins of Bag End announced that he would shortly be
celebrating his eleventy-first birthday with a party of special
magnificence, there was much talk and excitement in Hobbiton.
Bilbo was very rich and very peculiar, and had been the
wonder of the Shire for sixty years, ever since his remarkable
disappearance and unexpected return. The riches he had brought back
from his travels had now become a local legend, and it was popularly
believed, whatever the old folk might say, that the Hill at Bag End
was full of tunnels stuffed with treasure. And if that was not enough
for fame, there was also his prolonged vigour to marvel at. Time wore
on, but it seemed to have little effect on Mr. Baggins. At ninety he
was much the same as at fifty. At ninety-nine they began to call him
well-preserved; but unchanged would have been nearer the mark. There
were some that shook their heads and thought this was too much of a
good thing; it seemed unfair that anyone should possess (apparently)
perpetual youth as well as (reputedly) inexhaustible wealth.
\"It will have to be paid for,\" they said. \"It isn\"t natural,
and trouble will come of it!";
    let blocks = split_text_into_block(test_text, 150);
    assert_eq!(blocks.len(), 5);
}
